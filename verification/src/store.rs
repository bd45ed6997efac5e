use vstd::prelude::*;
use crate::cipher::{decrypt, decrypt_text_spec, encrypt, encrypt_spec, KeyMaterial};
use crate::errors::CipherError;
use vstd::utf8::encode_utf8;

verus! {

/// The fields a caller supplies to register a new credential; the secret is
/// still clear text here and is never stored in this form.
pub struct NewCredential {
    pub application: String,
    pub username: String,
    pub email: String,
    pub secret: String,
    pub note: Option<String>,
}

/// A credential as returned by queries: the secret has been decrypted.
pub struct CredentialRecord {
    pub id: u64,
    pub application: String,
    pub username: String,
    pub email: String,
    pub secret: String,
    pub note: Option<String>,
}

/// The mathematical value of a `CredentialRecord`.
pub struct RecordView {
    pub id: u64,
    pub application: Seq<char>,
    pub username: Seq<char>,
    pub email: Seq<char>,
    pub secret: Seq<char>,
    pub note: Option<Seq<char>>,
}

/// The optional note as a mathematical value.
pub open spec fn note_view(n: Option<String>) -> Option<Seq<char>> {
    match n {
        Some(s) => Some(s@),
        None => None,
    }
}

impl View for CredentialRecord {
    type V = RecordView;

    open spec fn view(&self) -> RecordView {
        RecordView {
            id: self.id,
            application: self.application@,
            username: self.username@,
            email: self.email@,
            secret: self.secret@,
            note: note_view(self.note),
        }
    }
}

/// A credential row as persisted: the secret field holds only the
/// encrypted-and-encoded text.
pub struct StoredRow {
    pub id: u64,
    pub application: String,
    pub username: String,
    pub email: String,
    pub secret_text: String,
    pub note: Option<String>,
}

/// A row whose stored secret could not be recovered, reported with its
/// non-secret fields only.
pub struct RowFailure {
    pub id: u64,
    pub application: String,
    pub username: String,
    pub email: String,
    pub error: CipherError,
}

/// The mathematical value of a `RowFailure`.
pub struct FailureView {
    pub id: u64,
    pub application: Seq<char>,
    pub username: Seq<char>,
    pub email: Seq<char>,
    pub error: CipherError,
}

impl View for RowFailure {
    type V = FailureView;

    open spec fn view(&self) -> FailureView {
        FailureView {
            id: self.id,
            application: self.application@,
            username: self.username@,
            email: self.email@,
            error: self.error,
        }
    }
}

/// An administrator row as persisted.
pub struct UserRow {
    pub id: u64,
    pub username: String,
    pub secret_text: String,
}

/// What decoding one persisted row yields: the record with its secret
/// decrypted, or the error that names why the secret cannot be recovered.
pub open spec fn decode_row_spec(key: Seq<u8>, iv: Seq<u8>, row: StoredRow) -> Result<
    RecordView,
    CipherError,
> {
    match decrypt_text_spec(key, iv, row.secret_text@) {
        Ok(s) => Ok(
            RecordView {
                id: row.id,
                application: row.application@,
                username: row.username@,
                email: row.email@,
                secret: s,
                note: note_view(row.note),
            },
        ),
        Err(e) => Err(e),
    }
}

/// Decodes one persisted row: decrypts the stored secret text and rebuilds
/// the clear record, or reports exactly why the secret cannot be recovered.
pub fn decode_stored_row(km: &KeyMaterial, row: &StoredRow) -> (r: Result<
    CredentialRecord,
    CipherError,
>)
    requires
        km.wf(),
    ensures
        decode_row_spec(km.key@, km.iv@, *row) is Ok ==> r is Ok && r->Ok_0@ == decode_row_spec(
            km.key@,
            km.iv@,
            *row,
        )->Ok_0,
        decode_row_spec(km.key@, km.iv@, *row) is Err ==> r is Err && r->Err_0 == decode_row_spec(
            km.key@,
            km.iv@,
            *row,
        )->Err_0,
        forall|s: Seq<char>|
            row.secret_text@ == encrypt_spec(km.key@, km.iv@, #[trigger] encode_utf8(s)) ==> r
                is Ok && r->Ok_0@.secret == s,
{
    let secret = decrypt(km, row.secret_text.as_str());
    match secret {
        Ok(s) => Ok(
            CredentialRecord {
                id: row.id,
                application: row.application.clone(),
                username: row.username.clone(),
                email: row.email.clone(),
                secret: s,
                note: clone_note(&row.note),
            },
        ),
        Err(e) => Err(e),
    }
}

/// Copies an optional note.
fn clone_note(n: &Option<String>) -> (r: Option<String>)
    ensures
        r == *n,
{
    match n {
        Some(s) => Some(s.clone()),
        None => None,
    }
}

/// Whether a row is selected: every row for a listing, an exact match on the
/// application name for a search.
pub open spec fn row_selected(row: StoredRow, filter: Option<Seq<char>>) -> bool {
    match filter {
        None => true,
        Some(name) => row.application@ == name,
    }
}

/// The records a query returns: the selected rows whose secret decrypts, in
/// row order, each with its secret decrypted.
pub open spec fn selected_records(
    key: Seq<u8>,
    iv: Seq<u8>,
    rows: Seq<StoredRow>,
    filter: Option<Seq<char>>,
) -> Seq<RecordView>
    decreases rows.len(),
{
    if rows.len() == 0 {
        Seq::empty()
    } else {
        let init = selected_records(key, iv, rows.drop_last(), filter);
        let last = rows.last();
        if row_selected(last, filter) && decode_row_spec(key, iv, last) is Ok {
            init.push(decode_row_spec(key, iv, last)->Ok_0)
        } else {
            init
        }
    }
}

/// The failures a query reports: the selected rows whose secret does not
/// decrypt, in row order, each with its non-secret fields and its error.
pub open spec fn selected_failures(
    key: Seq<u8>,
    iv: Seq<u8>,
    rows: Seq<StoredRow>,
    filter: Option<Seq<char>>,
) -> Seq<FailureView>
    decreases rows.len(),
{
    if rows.len() == 0 {
        Seq::empty()
    } else {
        let init = selected_failures(key, iv, rows.drop_last(), filter);
        let last = rows.last();
        if row_selected(last, filter) && decode_row_spec(key, iv, last) is Err {
            init.push(
                FailureView {
                    id: last.id,
                    application: last.application@,
                    username: last.username@,
                    email: last.email@,
                    error: decode_row_spec(key, iv, last)->Err_0,
                },
            )
        } else {
            init
        }
    }
}

/// The rows that survive a deletion keyed on the application name: those
/// whose application differs, in row order.
pub open spec fn kept_rows(rows: Seq<StoredRow>, name: Seq<char>) -> Seq<StoredRow>
    decreases rows.len(),
{
    if rows.len() == 0 {
        Seq::empty()
    } else {
        let init = kept_rows(rows.drop_last(), name);
        if rows.last().application@ == name {
            init
        } else {
            init.push(rows.last())
        }
    }
}

/// Every kept row is one of the original rows.
pub proof fn lemma_kept_rows_subset(rows: Seq<StoredRow>, name: Seq<char>)
    ensures
        kept_rows(rows, name).len() <= rows.len(),
        forall|i: int|
            0 <= i < kept_rows(rows, name).len() ==> exists|j: int|
                0 <= j < rows.len() && #[trigger] kept_rows(rows, name)[i] == rows[j],
    decreases rows.len(),
{
    if rows.len() > 0 {
        lemma_kept_rows_subset(rows.drop_last(), name);
        assert forall|i: int| 0 <= i < kept_rows(rows, name).len() implies exists|j: int|
            0 <= j < rows.len() && #[trigger] kept_rows(rows, name)[i] == rows[j] by {
            let kept = kept_rows(rows, name);
            let init = kept_rows(rows.drop_last(), name);
            if i < init.len() {
                let j = choose|j: int|
                    0 <= j < rows.drop_last().len() && init[i] == rows.drop_last()[j];
                assert(kept[i] == rows[j]);
            } else {
                assert(kept[i] == rows[rows.len() - 1]);
            }
        }
    }
}

/// Deleting keeps identifiers strictly increasing and below their bound.
pub proof fn lemma_kept_rows_wf(rows: Seq<StoredRow>, name: Seq<char>, bound: u64)
    requires
        forall|i: int, j: int| 0 <= i < j < rows.len() ==> #[trigger] rows[i].id < #[trigger] rows[j].id,
        forall|i: int| 0 <= i < rows.len() ==> #[trigger] rows[i].id < bound,
    ensures
        forall|i: int, j: int|
            0 <= i < j < kept_rows(rows, name).len() ==> #[trigger] kept_rows(rows, name)[i].id
                < #[trigger] kept_rows(rows, name)[j].id,
        forall|i: int|
            0 <= i < kept_rows(rows, name).len() ==> #[trigger] kept_rows(rows, name)[i].id < bound,
    decreases rows.len(),
{
    if rows.len() > 0 {
        let prefix = rows.drop_last();
        let last = rows.last();
        assert(forall|i: int| 0 <= i < prefix.len() ==> #[trigger] prefix[i] == rows[i]);
        lemma_kept_rows_wf(prefix, name, bound);
        lemma_kept_rows_subset(prefix, name);
        let init = kept_rows(prefix, name);
        let kept = kept_rows(rows, name);
        assert forall|i: int| 0 <= i < init.len() implies #[trigger] init[i].id < last.id by {
            let j = choose|j: int| 0 <= j < prefix.len() && init[i] == prefix[j];
            assert(rows[j].id < rows[rows.len() - 1].id);
        }
        if last.application@ != name {
            assert(kept == init.push(last));
        }
    }
}

/// What a query hands back: the recovered records and, separately, one
/// failure report for each selected row whose secret could not be recovered.
pub struct QueryOutcome {
    pub records: Vec<CredentialRecord>,
    pub failures: Vec<RowFailure>,
}

/// Whether there is an administrator row.
pub open spec fn has_admin(users: Seq<UserRow>) -> bool {
    exists|i: int| 0 <= i < users.len() && users[i].username@ == "admin"@
}

/// How many administrator rows there are.
pub open spec fn admin_count(users: Seq<UserRow>) -> int
    decreases users.len(),
{
    if users.len() == 0 {
        0int
    } else {
        admin_count(users.drop_last()) + if users.last().username@ == "admin"@ {
            1int
        } else {
            0int
        }
    }
}

/// The users after one bootstrap run that would insert `row`: unchanged when
/// an administrator already exists, else with `row` appended.
pub open spec fn bootstrap_users_spec(users: Seq<UserRow>, row: UserRow) -> Seq<UserRow> {
    if has_admin(users) {
        users
    } else {
        users.push(row)
    }
}

/// The usernames of the user rows are pairwise distinct.
pub open spec fn usernames_distinct(users: Seq<UserRow>) -> bool {
    forall|i: int, j: int|
        0 <= i < j < users.len() ==> #[trigger] users[i].username@ != #[trigger] users[j].username@
}

/// Without an administrator row the administrator count is zero.
pub proof fn lemma_admin_count_zero(users: Seq<UserRow>)
    requires
        !has_admin(users),
    ensures
        admin_count(users) == 0,
    decreases users.len(),
{
    if users.len() > 0 {
        assert(!has_admin(users.drop_last())) by {
            if has_admin(users.drop_last()) {
                let i = choose|i: int|
                    0 <= i < users.drop_last().len() && users.drop_last()[i].username@ == "admin"@;
                assert(users[i].username@ == "admin"@);
            }
        }
        lemma_admin_count_zero(users.drop_last());
        assert(users[users.len() - 1].username@ != "admin"@);
    }
}

/// With pairwise distinct usernames, an existing administrator row is the
/// only one.
pub proof fn lemma_admin_count_one(users: Seq<UserRow>)
    requires
        usernames_distinct(users),
        has_admin(users),
    ensures
        admin_count(users) == 1,
    decreases users.len(),
{
    let last = users.last();
    if last.username@ == "admin"@ {
        assert(!has_admin(users.drop_last())) by {
            if has_admin(users.drop_last()) {
                let i = choose|i: int|
                    0 <= i < users.drop_last().len() && users.drop_last()[i].username@ == "admin"@;
                assert(users[i].username@ == users[users.len() - 1].username@);
            }
        }
        lemma_admin_count_zero(users.drop_last());
    } else {
        let i = choose|i: int| 0 <= i < users.len() && users[i].username@ == "admin"@;
        assert(i < users.drop_last().len());
        assert(users.drop_last()[i].username@ == "admin"@);
        assert(usernames_distinct(users.drop_last())) by {
            assert(forall|a: int, b: int|
                0 <= a < b < users.drop_last().len() ==> users.drop_last()[a] == users[a]
                    && users.drop_last()[b] == users[b]);
        }
        lemma_admin_count_one(users.drop_last());
    }
}

/// Law: the bootstrap transition is idempotent. Running it twice (as two
/// startups would) gives the same users as running it once, and after the
/// first run exactly one administrator row exists — a second one is never
/// created.
pub proof fn lemma_bootstrap_idempotent(users: Seq<UserRow>, row1: UserRow, row2: UserRow)
    requires
        usernames_distinct(users),
        row1.username@ == "admin"@,
        row2.username@ == "admin"@,
    ensures
        bootstrap_users_spec(bootstrap_users_spec(users, row1), row2) == bootstrap_users_spec(
            users,
            row1,
        ),
        admin_count(bootstrap_users_spec(users, row1)) == 1,
{
    let once = bootstrap_users_spec(users, row1);
    if has_admin(users) {
        lemma_admin_count_one(users);
    } else {
        assert(once == users.push(row1));
        assert(once[once.len() - 1].username@ == "admin"@);
        assert(has_admin(once));
        lemma_admin_count_zero(users);
        assert(once.drop_last() =~= users);
    }
}

/// Law: listing is idempotent. Two results of `list_all` on the same store
/// state, with no write in between, are the same sequence of records.
pub proof fn lemma_list_all_idempotent(v: Vault, r1: Seq<RecordView>, r2: Seq<RecordView>)
    requires
        r1 == selected_records(v.km.key@, v.km.iv@, v.rows@, None::<Seq<char>>),
        r2 == selected_records(v.km.key@, v.km.iv@, v.rows@, None::<Seq<char>>),
    ensures
        r1 == r2,
{
}

/// The record store: rows of encrypted credentials, the administrator rows,
/// and the key material the cipher pipeline uses for both.
pub struct Vault {
    pub km: KeyMaterial,
    pub rows: Vec<StoredRow>,
    pub next_id: u64,
    pub users: Vec<UserRow>,
    pub next_user_id: u64,
}

impl Vault {
    /// Identifiers are strictly increasing (so never reused), below the next
    /// free one, usernames are unique, and the key material is well-formed.
    pub open spec fn wf(&self) -> bool {
        &&& self.km.wf()
        &&& forall|i: int, j: int|
            0 <= i < j < self.rows@.len() ==> #[trigger] self.rows@[i].id
                < #[trigger] self.rows@[j].id
        &&& forall|i: int| 0 <= i < self.rows@.len() ==> #[trigger] self.rows@[i].id < self.next_id
        &&& forall|i: int, j: int|
            0 <= i < j < self.users@.len() ==> #[trigger] self.users@[i].id
                < #[trigger] self.users@[j].id
        &&& forall|i: int|
            0 <= i < self.users@.len() ==> #[trigger] self.users@[i].id < self.next_user_id
        &&& usernames_distinct(self.users@)
    }

    /// Every persisted secret, credential or administrator, is the output of
    /// the cipher pipeline on some clear text: none is stored in clear form,
    /// and each is recoverable through the pipeline.
    pub open spec fn secrets_encrypted(&self) -> bool {
        &&& forall|i: int|
            0 <= i < self.rows@.len() ==> exists|s: Seq<char>|
                (#[trigger] self.rows@[i]).secret_text@ == encrypt_spec(
                    self.km.key@,
                    self.km.iv@,
                    encode_utf8(s),
                )
        &&& forall|i: int|
            0 <= i < self.users@.len() ==> exists|s: Seq<char>|
                (#[trigger] self.users@[i]).secret_text@ == encrypt_spec(
                    self.km.key@,
                    self.km.iv@,
                    encode_utf8(s),
                )
    }

    /// An empty store over the given key material.
    pub fn new(km: KeyMaterial) -> (v: Vault)
        requires
            km.wf(),
        ensures
            v.wf(),
            v.secrets_encrypted(),
            v.km == km,
            v.rows@ == Seq::<StoredRow>::empty(),
            v.users@ == Seq::<UserRow>::empty(),
            v.next_id == 1,
            v.next_user_id == 1,
    {
        Vault { km, rows: Vec::new(), next_id: 1, users: Vec::new(), next_user_id: 1 }
    }

    /// Registers a credential: encrypts the secret through the cipher
    /// pipeline and appends a row under a fresh identifier, which is
    /// returned. The secret is persisted only in encrypted form.
    pub fn create(&mut self, input: NewCredential) -> (id: u64)
        requires
            old(self).wf(),
            old(self).next_id < u64::MAX,
            input.application@.len() > 0,
            encode_utf8(input.secret@).len() + 16 <= usize::MAX,
        ensures
            final(self).wf(),
            id == old(self).next_id,
            final(self).next_id == old(self).next_id + 1,
            final(self).rows@.len() == old(self).rows@.len() + 1,
            final(self).rows@ == old(self).rows@.push(final(self).rows@.last()),
            ({
                let row = final(self).rows@.last();
                &&& row.id == id
                &&& row.application@ == input.application@
                &&& row.username@ == input.username@
                &&& row.email@ == input.email@
                &&& row.secret_text@ == encrypt_spec(
                    old(self).km.key@,
                    old(self).km.iv@,
                    encode_utf8(input.secret@),
                )
                &&& note_view(row.note) == note_view(input.note)
            }),
            final(self).km == old(self).km,
            final(self).users@ == old(self).users@,
            final(self).next_user_id == old(self).next_user_id,
            old(self).secrets_encrypted() ==> final(self).secrets_encrypted(),
    {
        let secret_text = encrypt(&self.km, input.secret.as_str());
        let id = self.next_id;
        let row = StoredRow {
            id,
            application: input.application,
            username: input.username,
            email: input.email,
            secret_text,
            note: input.note,
        };
        self.rows.push(row);
        self.next_id = self.next_id + 1;
        id
    }

    /// Loads a row exactly as a persistence backend handed it back, secret
    /// text untouched: the seam through which previously persisted (and
    /// possibly corrupted) data re-enters the store. Returns the identifier
    /// the row is filed under.
    pub fn restore_row(
        &mut self,
        application: String,
        username: String,
        email: String,
        secret_text: String,
        note: Option<String>,
    ) -> (id: u64)
        requires
            old(self).wf(),
            old(self).next_id < u64::MAX,
        ensures
            final(self).wf(),
            id == old(self).next_id,
            final(self).next_id == old(self).next_id + 1,
            final(self).rows@ == old(self).rows@.push(final(self).rows@.last()),
            final(self).rows@.len() == old(self).rows@.len() + 1,
            ({
                let row = final(self).rows@.last();
                &&& row.id == id
                &&& row.application@ == application@
                &&& row.username@ == username@
                &&& row.email@ == email@
                &&& row.secret_text@ == secret_text@
                &&& note_view(row.note) == note_view(note)
            }),
            final(self).km == old(self).km,
            final(self).users@ == old(self).users@,
            final(self).next_user_id == old(self).next_user_id,
    {
        let id = self.next_id;
        let row = StoredRow { id, application, username, email, secret_text, note };
        self.rows.push(row);
        self.next_id = self.next_id + 1;
        id
    }

    /// Walks the rows, decoding each selected one: recovered records and
    /// per-row failures come back in row order; one bad row never hides the
    /// rest.
    fn query(&self, filter: Option<&String>) -> (r: QueryOutcome)
        requires
            self.km.wf(),
        ensures
            ({
                let f = match filter {
                    Some(n) => Some(n@),
                    None => None::<Seq<char>>,
                };
                &&& r.records@.map_values(|c: CredentialRecord| c@) == selected_records(
                    self.km.key@,
                    self.km.iv@,
                    self.rows@,
                    f,
                )
                &&& r.failures@.map_values(|c: RowFailure| c@) == selected_failures(
                    self.km.key@,
                    self.km.iv@,
                    self.rows@,
                    f,
                )
                &&& self.secrets_encrypted() ==> r.failures@.len() == 0
            }),
    {
        let ghost f = match filter {
            Some(n) => Some(n@),
            None => None::<Seq<char>>,
        };
        let mut records: Vec<CredentialRecord> = Vec::new();
        let mut failures: Vec<RowFailure> = Vec::new();
        let n: usize = self.rows.len();
        let mut j: usize = 0;
        proof {
            assert(self.rows@.take(0) =~= Seq::<StoredRow>::empty());
        }
        while j < n
            invariant
                self.km.wf(),
                n == self.rows@.len(),
                j <= n,
                f == (match filter {
                    Some(n2) => Some(n2@),
                    None => None::<Seq<char>>,
                }),
                records@.map_values(|c: CredentialRecord| c@) == selected_records(
                    self.km.key@,
                    self.km.iv@,
                    self.rows@.take(j as int),
                    f,
                ),
                failures@.map_values(|c: RowFailure| c@) == selected_failures(
                    self.km.key@,
                    self.km.iv@,
                    self.rows@.take(j as int),
                    f,
                ),
                self.secrets_encrypted() ==> failures@.len() == 0,
            decreases n - j,
        {
            let row = &self.rows[j];
            let selected: bool;
            match filter {
                Some(name) => {
                    selected = row.application == *name;
                    proof {
                        assert(f == Some(name@));
                        assert(selected == row_selected(self.rows@[j as int], f));
                    }
                },
                None => {
                    selected = true;
                },
            }
            proof {
                assert(self.rows@.take(j + 1).drop_last() =~= self.rows@.take(j as int));
                assert(self.rows@.take(j + 1).last() == self.rows@[j as int]);
                assert(selected == row_selected(self.rows@[j as int], f));
            }
            if selected {
                let decoded = decode_stored_row(&self.km, row);
                match decoded {
                    Ok(rec) => {
                        records.push(rec);
                        proof {
                            assert(records@.map_values(|c: CredentialRecord| c@) =~= records@
                                .drop_last().map_values(|c: CredentialRecord| c@).push(
                                records@.last()@,
                            ));
                        }
                    },
                    Err(e) => {
                        proof {
                            if self.secrets_encrypted() {
                                assert(exists|s: Seq<char>|
                                    (#[trigger] self.rows@[j as int]).secret_text@ == encrypt_spec(
                                        self.km.key@,
                                        self.km.iv@,
                                        encode_utf8(s),
                                    ));
                                let s0 = choose|s: Seq<char>|
                                    self.rows@[j as int].secret_text@ == encrypt_spec(
                                        self.km.key@,
                                        self.km.iv@,
                                        encode_utf8(s),
                                    );
                                assert(false);
                            }
                        }
                        let fail = RowFailure {
                            id: row.id,
                            application: row.application.clone(),
                            username: row.username.clone(),
                            email: row.email.clone(),
                            error: e,
                        };
                        failures.push(fail);
                        proof {
                            assert(failures@.map_values(|c: RowFailure| c@) =~= failures@
                                .drop_last().map_values(|c: RowFailure| c@).push(
                                failures@.last()@,
                            ));
                        }
                    },
                }
            }
            j = j + 1;
        }
        proof {
            assert(self.rows@.take(n as int) =~= self.rows@);
        }
        QueryOutcome { records, failures }
    }

    /// Lists every stored credential, each secret decrypted; rows whose
    /// secret cannot be recovered are reported individually instead of
    /// aborting the listing.
    pub fn list_all(&self) -> (r: QueryOutcome)
        requires
            self.km.wf(),
        ensures
            r.records@.map_values(|c: CredentialRecord| c@) == selected_records(
                self.km.key@,
                self.km.iv@,
                self.rows@,
                None::<Seq<char>>,
            ),
            r.failures@.map_values(|c: RowFailure| c@) == selected_failures(
                self.km.key@,
                self.km.iv@,
                self.rows@,
                None::<Seq<char>>,
            ),
            self.secrets_encrypted() ==> r.failures@.len() == 0,
    {
        self.query(None)
    }

    /// Returns every credential whose application name matches exactly, each
    /// secret decrypted; rows whose secret cannot be recovered are reported
    /// individually instead of aborting the search. No match is an empty
    /// result, not a failure.
    pub fn find_by_application(&self, name: &String) -> (r: QueryOutcome)
        requires
            self.km.wf(),
        ensures
            r.records@.map_values(|c: CredentialRecord| c@) == selected_records(
                self.km.key@,
                self.km.iv@,
                self.rows@,
                Some(name@),
            ),
            r.failures@.map_values(|c: RowFailure| c@) == selected_failures(
                self.km.key@,
                self.km.iv@,
                self.rows@,
                Some(name@),
            ),
            self.secrets_encrypted() ==> r.failures@.len() == 0,
    {
        self.query(Some(name))
    }

    /// Removes every row whose application name matches exactly and returns
    /// how many went; zero matches is a valid outcome, not a failure.
    pub fn delete_by_application(&mut self, name: &String) -> (count: usize)
        requires
            old(self).wf(),
        ensures
            final(self).wf(),
            final(self).rows@ == kept_rows(old(self).rows@, name@),
            count == old(self).rows@.len() - kept_rows(old(self).rows@, name@).len(),
            final(self).km == old(self).km,
            final(self).next_id == old(self).next_id,
            final(self).users@ == old(self).users@,
            final(self).next_user_id == old(self).next_user_id,
            old(self).secrets_encrypted() ==> final(self).secrets_encrypted(),
    {
        let n: usize = self.rows.len();
        let mut kept: Vec<StoredRow> = Vec::new();
        let mut j: usize = 0;
        proof {
            assert(self.rows@.take(0) =~= Seq::<StoredRow>::empty());
        }
        while j < n
            invariant
                n == self.rows@.len(),
                j <= n,
                kept@ == kept_rows(self.rows@.take(j as int), name@),
                kept@.len() <= j,
            decreases n - j,
        {
            let row = &self.rows[j];
            proof {
                assert(self.rows@.take(j + 1).drop_last() =~= self.rows@.take(j as int));
                assert(self.rows@.take(j + 1).last() == self.rows@[j as int]);
            }
            if !(row.application == *name) {
                let copy = duplicate_row(row);
                kept.push(copy);
            }
            j = j + 1;
        }
        proof {
            assert(self.rows@.take(n as int) =~= self.rows@);
            lemma_kept_rows_subset(self.rows@, name@);
        }
        let count = n - kept.len();
        self.rows = kept;
        proof {
            let old_rows = old(self).rows@;
            lemma_kept_rows_wf(old_rows, name@, old(self).next_id);
            if old(self).secrets_encrypted() {
                lemma_kept_rows_subset(old_rows, name@);
                assert forall|i: int|
                    0 <= i < self.rows@.len() implies exists|p: Seq<u8>|
                    (#[trigger] self.rows@[i]).secret_text@ == encrypt_spec(
                        self.km.key@,
                        self.km.iv@,
                        p,
                    ) by {
                    let j = choose|j: int|
                        0 <= j < old_rows.len() && kept_rows(old_rows, name@)[i] == old_rows[j];
                    assert(exists|s: Seq<char>|
                        (#[trigger] old_rows[j]).secret_text@ == encrypt_spec(
                            old(self).km.key@,
                            old(self).km.iv@,
                            encode_utf8(s),
                        ));
                    let s0 = choose|s: Seq<char>|
                        old_rows[j].secret_text@ == encrypt_spec(
                            old(self).km.key@,
                            old(self).km.iv@,
                            encode_utf8(s),
                        );
                    assert(self.rows@[i].secret_text@ == encrypt_spec(
                        self.km.key@,
                        self.km.iv@,
                        encode_utf8(s0),
                    ));
                }
                assert forall|i: int|
                    0 <= i < self.users@.len() implies exists|s: Seq<char>|
                    (#[trigger] self.users@[i]).secret_text@ == encrypt_spec(
                        self.km.key@,
                        self.km.iv@,
                        encode_utf8(s),
                    ) by {
                    assert(self.users@[i] == old(self).users@[i]);
                    assert(exists|s: Seq<char>|
                        (#[trigger] old(self).users@[i]).secret_text@ == encrypt_spec(
                            old(self).km.key@,
                            old(self).km.iv@,
                            encode_utf8(s),
                        ));
                    let s0 = choose|s: Seq<char>|
                        old(self).users@[i].secret_text@ == encrypt_spec(
                            old(self).km.key@,
                            old(self).km.iv@,
                            encode_utf8(s),
                        );
                    assert(self.users@[i].secret_text@ == encrypt_spec(
                        self.km.key@,
                        self.km.iv@,
                        encode_utf8(s0),
                    ));
                }
            }
        }
        count
    }

    /// Whether the administrator row already exists.
    pub fn is_admin_exists(&self) -> (r: bool)
        ensures
            r == has_admin(self.users@),
    {
        let admin: String = admin_name();
        let n: usize = self.users.len();
        let mut j: usize = 0;
        while j < n
            invariant
                n == self.users@.len(),
                j <= n,
                admin@ == "admin"@,
                forall|i: int| 0 <= i < j ==> #[trigger] self.users@[i].username@ != "admin"@,
            decreases n - j,
        {
            if self.users[j].username == admin {
                return true;
            }
            j = j + 1;
        }
        false
    }

    /// Runs the one-time administrator bootstrap: when no administrator row
    /// exists, the given secret is encrypted through the cipher pipeline and
    /// the row is inserted; when one exists already, nothing changes. Either
    /// way exactly one administrator row exists afterwards, and the result
    /// says whether this run created it.
    pub fn bootstrap(&mut self, admin_secret: &str) -> (created: bool)
        requires
            old(self).wf(),
            old(self).next_user_id < u64::MAX,
            encode_utf8(admin_secret@).len() + 16 <= usize::MAX,
        ensures
            final(self).wf(),
            created == !has_admin(old(self).users@),
            has_admin(final(self).users@),
            admin_count(final(self).users@) == 1,
            !created ==> final(self).users@ == old(self).users@ && final(self).next_user_id == old(
                self,
            ).next_user_id,
            created ==> ({
                let row = final(self).users@.last();
                &&& final(self).users@ == bootstrap_users_spec(old(self).users@, row)
                &&& final(self).users@ == old(self).users@.push(row)
                &&& row.username@ == "admin"@
                &&& row.id == old(self).next_user_id
                &&& row.secret_text@ == encrypt_spec(
                    old(self).km.key@,
                    old(self).km.iv@,
                    encode_utf8(admin_secret@),
                )
                &&& final(self).next_user_id == old(self).next_user_id + 1
            }),
            final(self).rows@ == old(self).rows@,
            final(self).next_id == old(self).next_id,
            final(self).km == old(self).km,
            old(self).secrets_encrypted() ==> final(self).secrets_encrypted(),
    {
        if self.is_admin_exists() {
            proof {
                lemma_admin_count_one(self.users@);
            }
            return false;
        }
        let secret_text = encrypt(&self.km, admin_secret);
        let row = UserRow { id: self.next_user_id, username: admin_name(), secret_text };
        self.users.push(row);
        self.next_user_id = self.next_user_id + 1;
        proof {
            assert(self.users@.drop_last() =~= old(self).users@);
            assert(self.users@.last().username@ == "admin"@);
            assert(has_admin(self.users@));
            lemma_admin_count_zero(old(self).users@);
            if old(self).secrets_encrypted() {
                assert forall|i: int|
                    0 <= i < self.users@.len() implies exists|s: Seq<char>|
                    (#[trigger] self.users@[i]).secret_text@ == encrypt_spec(
                        self.km.key@,
                        self.km.iv@,
                        encode_utf8(s),
                    ) by {
                    if i < old(self).users@.len() {
                        assert(self.users@[i] == old(self).users@[i]);
                        assert(exists|s: Seq<char>|
                            (#[trigger] old(self).users@[i]).secret_text@ == encrypt_spec(
                                old(self).km.key@,
                                old(self).km.iv@,
                                encode_utf8(s),
                            ));
                        let s0 = choose|s: Seq<char>|
                            old(self).users@[i].secret_text@ == encrypt_spec(
                                old(self).km.key@,
                                old(self).km.iv@,
                                encode_utf8(s),
                            );
                        assert(self.users@[i].secret_text@ == encrypt_spec(
                            self.km.key@,
                            self.km.iv@,
                            encode_utf8(s0),
                        ));
                    } else {
                        assert(self.users@[i].secret_text@ == encrypt_spec(
                            self.km.key@,
                            self.km.iv@,
                            encode_utf8(admin_secret@),
                        ));
                    }
                }
                assert forall|i: int|
                    0 <= i < self.rows@.len() implies exists|s: Seq<char>|
                    (#[trigger] self.rows@[i]).secret_text@ == encrypt_spec(
                        self.km.key@,
                        self.km.iv@,
                        encode_utf8(s),
                    ) by {
                    assert(exists|s: Seq<char>|
                        (#[trigger] old(self).rows@[i]).secret_text@ == encrypt_spec(
                            old(self).km.key@,
                            old(self).km.iv@,
                            encode_utf8(s),
                        ));
                }
            }
        }
        true
    }
}

/// Copies a stored row field by field.
fn duplicate_row(row: &StoredRow) -> (r: StoredRow)
    ensures
        r == *row,
{
    StoredRow {
        id: row.id,
        application: row.application.clone(),
        username: row.username.clone(),
        email: row.email.clone(),
        secret_text: row.secret_text.clone(),
        note: clone_note(&row.note),
    }
}

/// The administrator's fixed username.
fn admin_name() -> (r: String)
    ensures
        r@ == "admin"@,
{
    let s: &str = "admin";
    s.to_owned()
}

} // verus!
