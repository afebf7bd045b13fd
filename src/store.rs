//! The credential table: entries of four envelopes, indexed densely by their
//! position, each field sealed independently under the master password.
use crate::envelope::{bytes_of, decrypt_full, encrypt_full, open_envelope, sealed_from, lemma_sealed_opens, CipherGroup, VaultError};
use crate::primitives::AEAD_MAX_PLAIN;
use crate::text::chars_of;
use vstd::prelude::*;

verus! {

/// One stored credential: each field in its own envelope.
#[derive(Clone, Debug)]
pub struct StoredEntry {
    pub website: CipherGroup,
    pub username: CipherGroup,
    pub password: CipherGroup,
    pub notes: CipherGroup,
}

/// The table of stored credentials; an entry's index is its position, so the
/// indices are always exactly `0..len`.
#[derive(Clone, Debug)]
pub struct Vault {
    pub rows: Vec<StoredEntry>,
}

/// A decrypted credential: website, username, password, notes.
pub type PlainEntry = (Seq<char>, Seq<char>, Seq<char>, Seq<char>);

/// Decrypted columns, one vector per field, aligned by position.
pub type Columns = (Vec<String>, Vec<String>, Vec<String>, Vec<String>);

/// Opening a stored entry: its four fields in order, the first failure wins.
#[verifier::opaque]
pub open spec fn open_entry(e: StoredEntry, pw: Seq<char>) -> Result<PlainEntry, VaultError> {
    match open_envelope(e.website, pw) {
        Err(x) => Err(x),
        Ok(w) => match open_envelope(e.username, pw) {
            Err(x) => Err(x),
            Ok(u) => match open_envelope(e.password, pw) {
                Err(x) => Err(x),
                Ok(p) => match open_envelope(e.notes, pw) {
                    Err(x) => Err(x),
                    Ok(n) => Ok((w, u, p, n)),
                },
            },
        },
    }
}

/// Opening every entry in index order; the first failing entry decides the error.
pub open spec fn open_rows(rows: Seq<StoredEntry>, pw: Seq<char>) -> Result<Seq<PlainEntry>, VaultError>
    decreases rows.len(),
{
    if rows.len() == 0 {
        Ok(Seq::empty())
    } else {
        match open_rows(rows.drop_last(), pw) {
            Err(x) => Err(x),
            Ok(v) => match open_entry(rows.last(), pw) {
                Err(x) => Err(x),
                Ok(e) => Ok(v.push(e)),
            },
        }
    }
}

/// `needle` occurs in `hay` starting at `i`.
pub open spec fn occurs_at(hay: Seq<char>, needle: Seq<char>, i: int) -> bool {
    0 <= i && i + needle.len() <= hay.len() && hay.subrange(i, i + needle.len()) == needle
}

/// `needle` is a (case-sensitive) substring of `hay`.
pub open spec fn contains_text(hay: Seq<char>, needle: Seq<char>) -> bool {
    exists|i: int| occurs_at(hay, needle, i)
}

/// Whether an entry passes a filter on the named field; only `website` and
/// `username` name a field.
pub open spec fn selects(e: PlainEntry, filter: Seq<char>, field: Seq<char>) -> bool {
    (field == "website"@ && contains_text(e.0, filter)) || (field == "username"@ && contains_text(e.1, filter))
}

/// The entries that pass the filter, in their order.
pub open spec fn select_rows(v: Seq<PlainEntry>, filter: Seq<char>, field: Seq<char>) -> Seq<PlainEntry>
    decreases v.len(),
{
    if v.len() == 0 {
        v
    } else if selects(v.last(), filter, field) {
        select_rows(v.drop_last(), filter, field).push(v.last())
    } else {
        select_rows(v.drop_last(), filter, field)
    }
}

/// The four columns hold exactly the entries of `v`, field by field.
pub open spec fn columns_hold(c: Columns, v: Seq<PlainEntry>) -> bool {
    &&& c.0@.len() == v.len() && c.1@.len() == v.len() && c.2@.len() == v.len() && c.3@.len() == v.len()
    &&& forall|j: int| 0 <= j < v.len() ==> {
        &&& (#[trigger] c.0@[j])@ == v[j].0
        &&& c.1@[j]@ == v[j].1
        &&& c.2@[j]@ == v[j].2
        &&& c.3@[j]@ == v[j].3
    }
}

/// Each field is within the size the cipher seals.
pub open spec fn fields_fit(x: PlainEntry) -> bool {
    &&& bytes_of(x.0).len() <= AEAD_MAX_PLAIN
    &&& bytes_of(x.1).len() <= AEAD_MAX_PLAIN
    &&& bytes_of(x.2).len() <= AEAD_MAX_PLAIN
    &&& bytes_of(x.3).len() <= AEAD_MAX_PLAIN
}

/// `e` holds the four fields of `x`, each sealed under `pw`.
pub open spec fn entry_sealed_from(e: StoredEntry, x: PlainEntry, pw: Seq<char>) -> bool {
    &&& sealed_from(e.website, x.0, pw)
    &&& sealed_from(e.username, x.1, pw)
    &&& sealed_from(e.password, x.2, pw)
    &&& sealed_from(e.notes, x.3, pw)
}

impl Vault {
    /// An empty table.
    pub fn new() -> (r: Vault)
        ensures
            r.rows@.len() == 0,
    {
        Vault { rows: Vec::new() }
    }

    /// The number of entries.
    pub fn len(&self) -> (r: usize)
        ensures
            r == self.rows@.len(),
    {
        self.rows.len()
    }
}

/// Decrypts the four fields of one entry.
fn open_row(e: &StoredEntry, masterpw: &str) -> (r: Result<(String, String, String, String), VaultError>)
    ensures
        match open_entry(*e, masterpw@) {
            Ok(x) => r matches Ok(t) && t.0@ == x.0 && t.1@ == x.1 && t.2@ == x.2 && t.3@ == x.3,
            Err(x) => r matches Err(y) && y == x,
        },
{
    proof {
        reveal(open_entry);
    }
    let w = decrypt_full(&e.website, masterpw)?;
    let u = decrypt_full(&e.username, masterpw)?;
    let p = decrypt_full(&e.password, masterpw)?;
    let n = decrypt_full(&e.notes, masterpw)?;
    Ok((w, u, p, n))
}

/// Encrypts the four fields of one entry, each under fresh keys, nonces and salt.
fn seal_row(website: &str, username: &str, password: &str, notes: &str, masterpw: &str) -> (r: Result<StoredEntry, VaultError>)
    ensures
        fields_fit((website@, username@, password@, notes@)) ==> r is Ok,
        r matches Err(x) ==> x == VaultError::CryptoFailure,
        r matches Ok(e) ==> entry_sealed_from(e, (website@, username@, password@, notes@), masterpw@),
{
    let website = encrypt_full(website, masterpw)?;
    let username = encrypt_full(username, masterpw)?;
    let password = encrypt_full(password, masterpw)?;
    let notes = encrypt_full(notes, masterpw)?;
    Ok(StoredEntry { website, username, password, notes })
}

/// Appends a new entry at the next index, its four fields sealed independently.
/// It succeeds whenever each field is within the cipher's size limit; on
/// failure the table is unchanged.
pub fn add(vault: &mut Vault, website: &str, username: &str, password: &str, notes: &str, masterpw: &str) -> (r: Result<(), VaultError>)
    ensures
        fields_fit((website@, username@, password@, notes@)) ==> r is Ok,
        r matches Err(x) ==> x == VaultError::CryptoFailure && final(vault).rows@ == old(vault).rows@,
        r is Ok ==> final(vault).rows@.len() == old(vault).rows@.len() + 1
            && final(vault).rows@.drop_last() == old(vault).rows@
            && entry_sealed_from(final(vault).rows@.last(), (website@, username@, password@, notes@), masterpw@),
{
    let e = seal_row(website, username, password, notes, masterpw)?;
    vault.rows.push(e);
    proof {
        assert(vault.rows@.drop_last() =~= old(vault).rows@);
    }
    Ok(())
}

/// Decrypts every entry in index order, as four aligned columns. Any failing
/// field aborts the whole read with that error.
pub fn get_all(vault: &Vault, masterpw: &str) -> (r: Result<Columns, VaultError>)
    ensures
        match open_rows(vault.rows@, masterpw@) {
            Ok(v) => r matches Ok(c) && columns_hold(c, v),
            Err(x) => r matches Err(y) && y == x,
        },
{
    let mut websites: Vec<String> = Vec::new();
    let mut usernames: Vec<String> = Vec::new();
    let mut passwords: Vec<String> = Vec::new();
    let mut notes: Vec<String> = Vec::new();
    let mut i: usize = 0;
    while i < vault.rows.len()
        invariant
            i <= vault.rows@.len(),
            open_rows(vault.rows@.subrange(0, i as int), masterpw@) matches Ok(v)
                && columns_hold((websites, usernames, passwords, notes), v),
        decreases vault.rows@.len() - i,
    {
        let ghost prefix = vault.rows@.subrange(0, i as int);
        let ghost next = vault.rows@.subrange(0, i + 1);
        proof {
            assert(next.drop_last() =~= prefix);
        }
        match open_row(&vault.rows[i], masterpw) {
            Err(x) => {
                proof {
                    lemma_open_rows_error_persists(vault.rows@, masterpw@, i as int + 1);
                }
                return Err(x);
            },
            Ok((w, u, p, n)) => {
                let ghost v0 = open_rows(prefix, masterpw@)->Ok_0;
                let ghost x = open_entry(vault.rows@[i as int], masterpw@)->Ok_0;
                websites.push(w);
                usernames.push(u);
                passwords.push(p);
                notes.push(n);
                proof {
                    assert(next.last() == vault.rows@[i as int]);
                    assert(open_rows(next, masterpw@) == Ok::<Seq<PlainEntry>, VaultError>(v0.push(x)));
                    assert forall|j: int| 0 <= j < v0.push(x).len() implies {
                        &&& (#[trigger] websites@[j])@ == v0.push(x)[j].0
                        &&& usernames@[j]@ == v0.push(x)[j].1
                        &&& passwords@[j]@ == v0.push(x)[j].2
                        &&& notes@[j]@ == v0.push(x)[j].3
                    } by {}
                }
            },
        }
        i = i + 1;
    }
    proof {
        assert(vault.rows@.subrange(0, i as int) =~= vault.rows@);
    }
    Ok((websites, usernames, passwords, notes))
}

/// A failure among the first `k` entries is the failure of the whole table.
proof fn lemma_open_rows_error_persists(rows: Seq<StoredEntry>, pw: Seq<char>, k: int)
    requires
        0 <= k <= rows.len(),
        open_rows(rows.subrange(0, k), pw) is Err,
    ensures
        open_rows(rows, pw) == open_rows(rows.subrange(0, k), pw),
    decreases rows.len() - k,
{
    if k < rows.len() {
        assert(rows.subrange(0, k + 1).drop_last() =~= rows.subrange(0, k));
        lemma_open_rows_error_persists(rows, pw, k + 1);
    } else {
        assert(rows.subrange(0, k) =~= rows);
    }
}

/// Decrypts the entry at `index`; an index outside the table is `NotFound`.
pub fn get_row(vault: &Vault, index: i32, masterpw: &str) -> (r: Result<(String, String, String, String), VaultError>)
    ensures
        index < 0 || index >= vault.rows@.len() ==> r == Err::<(String, String, String, String), VaultError>(VaultError::NotFound),
        0 <= index < vault.rows@.len() ==> match open_entry(vault.rows@[index as int], masterpw@) {
            Ok(x) => r matches Ok(t) && t.0@ == x.0 && t.1@ == x.1 && t.2@ == x.2 && t.3@ == x.3,
            Err(x) => r matches Err(y) && y == x,
        },
{
    if index < 0 || index as usize >= vault.rows.len() {
        return Err(VaultError::NotFound);
    }
    open_row(&vault.rows[index as usize], masterpw)
}

/// Whether `needle` occurs in `hay`, case-sensitively.
pub fn contains_text_exec(hay: &str, needle: &str) -> (r: bool)
    ensures
        r == contains_text(hay@, needle@),
{
    let h: Vec<char> = chars_of(hay);
    let n: Vec<char> = chars_of(needle);
    let hl = h.len();
    if n.len() > h.len() {
        proof {
            assert forall|i: int| !occurs_at(hay@, needle@, i) by {}
        }
        return false;
    }
    let mut i: usize = 0;
    while i <= h.len() - n.len()
        invariant
            h@ == hay@,
            n@ == needle@,
            hl == h@.len(),
            n@.len() <= h@.len(),
            i <= h@.len() - n@.len() + 1,
            forall|k: int| 0 <= k < i ==> !occurs_at(hay@, needle@, k),
        decreases h@.len() - n@.len() + 1 - i,
    {
        let mut j: usize = 0;
        let mut same = true;
        while j < n.len()
            invariant
                h@ == hay@,
                n@ == needle@,
                hl == h@.len(),
                i + n@.len() <= h@.len(),
                j <= n@.len(),
                same == (forall|t: int| 0 <= t < j ==> h@[i + t] == n@[t]),
            decreases n@.len() - j,
        {
            assert(i + j < h@.len());
            if h[i + j] != n[j] {
                same = false;
            }
            j = j + 1;
        }
        if same {
            proof {
                assert(hay@.subrange(i as int, i + needle@.len()) =~= needle@);
                assert(occurs_at(hay@, needle@, i as int));
            }
            return true;
        }
        proof {
            assert(!occurs_at(hay@, needle@, i as int)) by {
                if occurs_at(hay@, needle@, i as int) {
                    assert forall|t: int| 0 <= t < n@.len() implies h@[i + t] == n@[t] by {
                        assert(hay@.subrange(i as int, i + needle@.len())[t] == needle@[t]);
                    }
                }
            }
        }
        i = i + 1;
    }
    proof {
        assert forall|k: int| !occurs_at(hay@, needle@, k) by {
            if 0 <= k && k < i {
            }
        }
    }
    false
}

/// The two field names are different texts.
proof fn lemma_field_names_differ()
    ensures
        "website"@ != "username"@,
{
    reveal_strlit("website");
    reveal_strlit("username");
    assert("website"@.len() != "username"@.len());
}

/// Whether an entry passes the filter on the named field.
fn selects_exec(website: &String, username: &String, filter: &str, field: &str) -> (r: bool)
    ensures
        r == ((field@ == "website"@ && contains_text(website@, filter@)) || (field@ == "username"@ && contains_text(username@, filter@))),
{
    proof {
        lemma_field_names_differ();
    }
    let field_name = field.to_owned();
    let website_name = "website".to_owned();
    let username_name = "username".to_owned();
    if field_name == website_name {
        contains_text_exec(website.as_str(), filter)
    } else if field_name == username_name {
        contains_text_exec(username.as_str(), filter)
    } else {
        false
    }
}

/// Decrypts every entry and keeps, in index order, those whose `website` or
/// `username` field (as `field` names it) contains `filter`. Any other field
/// name keeps nothing; a failing field still aborts the read.
pub fn get_only(vault: &Vault, filter: &str, field: &str, masterpw: &str) -> (r: Result<Columns, VaultError>)
    ensures
        match open_rows(vault.rows@, masterpw@) {
            Ok(v) => r matches Ok(c) && columns_hold(c, select_rows(v, filter@, field@)),
            Err(x) => r matches Err(y) && y == x,
        },
{
    let (all_w, all_u, all_p, all_n) = get_all(vault, masterpw)?;
    let ghost v = open_rows(vault.rows@, masterpw@)->Ok_0;
    let mut websites: Vec<String> = Vec::new();
    let mut usernames: Vec<String> = Vec::new();
    let mut passwords: Vec<String> = Vec::new();
    let mut notes: Vec<String> = Vec::new();
    let mut i: usize = 0;
    while i < all_w.len()
        invariant
            open_rows(vault.rows@, masterpw@) == Ok::<Seq<PlainEntry>, VaultError>(v),
            columns_hold((all_w, all_u, all_p, all_n), v),
            i <= v.len(),
            columns_hold((websites, usernames, passwords, notes), select_rows(v.subrange(0, i as int), filter@, field@)),
        decreases v.len() - i,
    {
        let ghost sel0 = select_rows(v.subrange(0, i as int), filter@, field@);
        let ghost x = v[i as int];
        proof {
            assert(v.subrange(0, i + 1).drop_last() =~= v.subrange(0, i as int));
            assert(v.subrange(0, i + 1).last() == x);
            assert(all_w@[i as int]@ == x.0 && all_u@[i as int]@ == x.1);
            assert(all_p@[i as int]@ == x.2 && all_n@[i as int]@ == x.3);
        }
        if selects_exec(&all_w[i], &all_u[i], filter, field) {
            websites.push(all_w[i].clone());
            usernames.push(all_u[i].clone());
            passwords.push(all_p[i].clone());
            notes.push(all_n[i].clone());
            proof {
                let sel = sel0.push(x);
                assert(select_rows(v.subrange(0, i + 1), filter@, field@) == sel);
                assert forall|j: int| 0 <= j < sel.len() implies {
                    &&& (#[trigger] websites@[j])@ == sel[j].0
                    &&& usernames@[j]@ == sel[j].1
                    &&& passwords@[j]@ == sel[j].2
                    &&& notes@[j]@ == sel[j].3
                } by {}
            }
        } else {
            proof {
                assert(select_rows(v.subrange(0, i + 1), filter@, field@) == sel0);
            }
        }
        i = i + 1;
    }
    proof {
        assert(v.subrange(0, i as int) =~= v);
    }
    Ok((websites, usernames, passwords, notes))
}

/// Removes the entry at `index`; every later entry moves down by one, so the
/// indices stay `0..len`. An index outside the table is `NotFound`.
pub fn delete(vault: &mut Vault, index: i32) -> (r: Result<(), VaultError>)
    ensures
        index < 0 || index >= old(vault).rows@.len() ==> r == Err::<(), VaultError>(VaultError::NotFound)
            && final(vault).rows@ == old(vault).rows@,
        0 <= index < old(vault).rows@.len() ==> r is Ok && final(vault).rows@ == old(vault).rows@.remove(index as int),
{
    if index < 0 || index as usize >= vault.rows.len() {
        return Err(VaultError::NotFound);
    }
    vault.rows.remove(index as usize);
    Ok(())
}

/// Re-encrypts all four fields from scratch and overwrites the entry at
/// `index`. An index outside the table is `NotFound`; an index inside it
/// succeeds whenever each field is within the cipher's size limit; on any
/// failure the table is unchanged.
pub fn edit(vault: &mut Vault, index: i32, website: &str, username: &str, password: &str, notes: &str, masterpw: &str) -> (r: Result<(), VaultError>)
    ensures
        index < 0 || index >= old(vault).rows@.len() ==> r == Err::<(), VaultError>(VaultError::NotFound),
        0 <= index < old(vault).rows@.len() && fields_fit((website@, username@, password@, notes@)) ==> r is Ok,
        r matches Err(x) ==> final(vault).rows@ == old(vault).rows@ && (x == VaultError::NotFound || x == VaultError::CryptoFailure),
        r is Ok ==> 0 <= index < old(vault).rows@.len()
            && final(vault).rows@.len() == old(vault).rows@.len()
            && (forall|j: int| 0 <= j < old(vault).rows@.len() && j != index ==> final(vault).rows@[j] == old(vault).rows@[j])
            && entry_sealed_from(final(vault).rows@[index as int], (website@, username@, password@, notes@), masterpw@),
{
    if index < 0 || index as usize >= vault.rows.len() {
        return Err(VaultError::NotFound);
    }
    let e = seal_row(website, username, password, notes, masterpw)?;
    vault.rows.set(index as usize, e);
    Ok(())
}

/// A table that opens to `v` has one entry per element of `v`, and each entry
/// opens to the element at its index.
pub proof fn lemma_open_rows_pointwise(rows: Seq<StoredEntry>, pw: Seq<char>, v: Seq<PlainEntry>)
    requires
        open_rows(rows, pw) == Ok::<Seq<PlainEntry>, VaultError>(v),
    ensures
        rows.len() == v.len(),
        forall|j: int| 0 <= j < rows.len() ==> open_entry(#[trigger] rows[j], pw) == Ok::<PlainEntry, VaultError>(v[j]),
    decreases rows.len(),
{
    if rows.len() > 0 {
        let w = open_rows(rows.drop_last(), pw)->Ok_0;
        lemma_open_rows_pointwise(rows.drop_last(), pw, w);
        assert(w.push(open_entry(rows.last(), pw)->Ok_0) == v);
        assert forall|j: int| 0 <= j < rows.len() implies open_entry(#[trigger] rows[j], pw) == Ok::<PlainEntry, VaultError>(v[j]) by {
            if j < rows.len() - 1 {
                assert(rows.drop_last()[j] == rows[j]);
            }
        }
    }
}

/// A table whose entries open one by one to the elements of `v` opens to `v`.
pub proof fn lemma_open_rows_from_pointwise(rows: Seq<StoredEntry>, pw: Seq<char>, v: Seq<PlainEntry>)
    requires
        rows.len() == v.len(),
        forall|j: int| 0 <= j < rows.len() ==> open_entry(#[trigger] rows[j], pw) == Ok::<PlainEntry, VaultError>(v[j]),
    ensures
        open_rows(rows, pw) == Ok::<Seq<PlainEntry>, VaultError>(v),
    decreases rows.len(),
{
    if rows.len() == 0 {
        assert(v =~= Seq::<PlainEntry>::empty());
    } else {
        let r0 = rows.drop_last();
        let v0 = v.drop_last();
        assert forall|j: int| 0 <= j < r0.len() implies open_entry(#[trigger] r0[j], pw) == Ok::<PlainEntry, VaultError>(v0[j]) by {
            assert(r0[j] == rows[j]);
        }
        lemma_open_rows_from_pointwise(r0, pw, v0);
        assert(open_entry(rows[rows.len() - 1], pw) == Ok::<PlainEntry, VaultError>(v[v.len() - 1]));
        assert(v0.push(v.last()) =~= v);
    }
}

/// An entry sealed from `x` under `pw` opens to `x` under `pw`.
pub proof fn lemma_entry_opens(e: StoredEntry, x: PlainEntry, pw: Seq<char>)
    requires
        entry_sealed_from(e, x, pw),
    ensures
        open_entry(e, pw) == Ok::<PlainEntry, VaultError>(x),
{
    reveal(open_entry);
    lemma_sealed_opens(e.website, x.0, pw);
    lemma_sealed_opens(e.username, x.1, pw);
    lemma_sealed_opens(e.password, x.2, pw);
    lemma_sealed_opens(e.notes, x.3, pw);
}

/// Adding keeps the existing entries and their order and puts the new one
/// last: a table that reads as `v` reads as `v` followed by `x` once an entry
/// sealed from `x` is appended.
pub proof fn lemma_add_appends(rows: Seq<StoredEntry>, v: Seq<PlainEntry>, e: StoredEntry, x: PlainEntry, pw: Seq<char>)
    requires
        open_rows(rows, pw) == Ok::<Seq<PlainEntry>, VaultError>(v),
        entry_sealed_from(e, x, pw),
    ensures
        open_rows(rows.push(e), pw) == Ok::<Seq<PlainEntry>, VaultError>(v.push(x)),
{
    lemma_entry_opens(e, x, pw);
    assert(rows.push(e).drop_last() =~= rows);
}

/// Deleting closes the gap: a table that reads as `v` reads as `v` without its
/// element at `i` once entry `i` is removed, the survivors keeping their order
/// and taking the indices `0..len - 1`.
pub proof fn lemma_delete_compacts(rows: Seq<StoredEntry>, v: Seq<PlainEntry>, i: int, pw: Seq<char>)
    requires
        open_rows(rows, pw) == Ok::<Seq<PlainEntry>, VaultError>(v),
        0 <= i < rows.len(),
    ensures
        open_rows(rows.remove(i), pw) == Ok::<Seq<PlainEntry>, VaultError>(v.remove(i)),
{
    lemma_open_rows_pointwise(rows, pw, v);
    let r2 = rows.remove(i);
    let v2 = v.remove(i);
    assert forall|j: int| 0 <= j < r2.len() implies open_entry(#[trigger] r2[j], pw) == Ok::<PlainEntry, VaultError>(v2[j]) by {
        if j < i {
            assert(r2[j] == rows[j] && v2[j] == v[j]);
        } else {
            assert(r2[j] == rows[j + 1] && v2[j] == v[j + 1]);
        }
    }
    lemma_open_rows_from_pointwise(r2, pw, v2);
}

/// Filtering on `website` keeps exactly the entries whose website contains
/// the filter text, in their order.
pub proof fn lemma_filter_website(v: Seq<PlainEntry>, filter: Seq<char>)
    ensures
        select_rows(v, filter, "website"@) == v.filter(|e: PlainEntry| contains_text(e.0, filter)),
    decreases v.len(),
{
    reveal(Seq::filter);
    if v.len() > 0 {
        lemma_filter_website(v.drop_last(), filter);
    }
    lemma_selects_website_only(filter);
}

/// Naming `website` selects by the website field alone.
proof fn lemma_selects_website_only(filter: Seq<char>)
    ensures
        forall|e: PlainEntry| selects(e, filter, "website"@) == contains_text(e.0, filter),
{
    lemma_field_names_differ();
}


/// One change to the table, as a law speaks of it: append an entry sealed from
/// a plaintext, or delete the entry at an index.
pub enum TableOp {
    Add(StoredEntry, PlainEntry),
    Delete(int),
}

/// The stored entries after a sequence of changes.
pub open spec fn apply_rows(rows: Seq<StoredEntry>, ops: Seq<TableOp>) -> Seq<StoredEntry>
    decreases ops.len(),
{
    if ops.len() == 0 {
        rows
    } else {
        let before = apply_rows(rows, ops.drop_last());
        match ops.last() {
            TableOp::Add(e, _) => before.push(e),
            TableOp::Delete(i) => if 0 <= i < before.len() { before.remove(i) } else { before },
        }
    }
}

/// The plaintext entries that survive a sequence of changes, in order.
pub open spec fn apply_plain(v: Seq<PlainEntry>, ops: Seq<TableOp>) -> Seq<PlainEntry>
    decreases ops.len(),
{
    if ops.len() == 0 {
        v
    } else {
        let before = apply_plain(v, ops.drop_last());
        match ops.last() {
            TableOp::Add(_, x) => before.push(x),
            TableOp::Delete(i) => if 0 <= i < before.len() { before.remove(i) } else { before },
        }
    }
}

/// Every added entry is sealed from its plaintext under `pw`.
pub open spec fn adds_sealed(ops: Seq<TableOp>, pw: Seq<char>) -> bool {
    forall|k: int| 0 <= k < ops.len() ==> (#[trigger] ops[k] matches TableOp::Add(e, x) ==> entry_sealed_from(e, x, pw))
}

/// After any sequence of adds and deletes, the table reads as exactly the
/// surviving entries, in the order they were added, at indices `0..len`.
pub proof fn lemma_table_history(rows: Seq<StoredEntry>, v: Seq<PlainEntry>, ops: Seq<TableOp>, pw: Seq<char>)
    requires
        open_rows(rows, pw) == Ok::<Seq<PlainEntry>, VaultError>(v),
        adds_sealed(ops, pw),
    ensures
        open_rows(apply_rows(rows, ops), pw) == Ok::<Seq<PlainEntry>, VaultError>(apply_plain(v, ops)),
    decreases ops.len(),
{
    if ops.len() > 0 {
        let prev = ops.drop_last();
        assert forall|k: int| 0 <= k < prev.len() implies (#[trigger] prev[k] matches TableOp::Add(e, x) ==> entry_sealed_from(e, x, pw)) by {
            assert(prev[k] == ops[k]);
        }
        lemma_table_history(rows, v, prev, pw);
        let r0 = apply_rows(rows, prev);
        let v0 = apply_plain(v, prev);
        lemma_open_rows_pointwise(r0, pw, v0);
        assert(ops[ops.len() - 1] == ops.last());
        match ops.last() {
            TableOp::Add(e, x) => {
                lemma_add_appends(r0, v0, e, x, pw);
            },
            TableOp::Delete(i) => {
                if 0 <= i < r0.len() {
                    lemma_delete_compacts(r0, v0, i, pw);
                }
            },
        }
    }
}

} // verus!
