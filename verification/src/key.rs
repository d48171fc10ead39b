use vstd::prelude::*;

verus! {

/// The ghost identity of an open document: a real file under its path, or
/// the synthetic report of one find-in-files run under its numeric token.
#[verifier::ext_equal]
pub enum KeyView {
    Real(Seq<char>),
    Report(u64),
}

/// Identity of a document in the session. A `Real` key names a file on
/// disk by its path; a `Report` key names the synthetic read-only result
/// of one find-in-files run, which is never written to disk and never
/// enters the dirty set. The two can never collide.
pub enum DocKey {
    Real(Vec<char>),
    Report(u64),
}

impl View for DocKey {
    type V = KeyView;

    open spec fn view(&self) -> KeyView {
        match self {
            DocKey::Real(p) => KeyView::Real(p@),
            DocKey::Report(id) => KeyView::Report(*id),
        }
    }
}

/// Compares two character buffers for equality.
pub fn text_eq(a: &Vec<char>, b: &Vec<char>) -> (r: bool)
    ensures
        r == (a@ == b@),
{
    if a.len() != b.len() {
        return false;
    }
    let n = a.len();
    let mut j: usize = 0;
    while j < n
        invariant
            j <= n,
            n == a@.len(),
            n == b@.len(),
            forall|k: int| 0 <= k < j ==> a@[k] == b@[k],
        decreases n - j,
    {
        if a[j] != b[j] {
            return false;
        }
        j += 1;
    }
    assert(a@ =~= b@);
    true
}

impl DocKey {
    /// True of a real file key, which may be saved and marked dirty.
    pub open spec fn is_real(self) -> bool {
        self@ is Real
    }

    /// Compares two document keys for identity.
    pub fn key_eq(&self, other: &DocKey) -> (r: bool)
        ensures
            r == (self@ == other@),
    {
        match (self, other) {
            (DocKey::Real(a), DocKey::Real(b)) => text_eq(a, b),
            (DocKey::Report(a), DocKey::Report(b)) => *a == *b,
            _ => false,
        }
    }

    /// Copies a document key.
    pub fn dup(&self) -> (r: DocKey)
        ensures
            r@ == self@,
    {
        match self {
            DocKey::Real(p) => DocKey::Real(copy_text(p)),
            DocKey::Report(id) => DocKey::Report(*id),
        }
    }
}

/// Copies a character buffer.
pub fn copy_text(t: &Vec<char>) -> (r: Vec<char>)
    ensures
        r@ == t@,
{
    let r = t.clone();
    assert(r@ =~= t@);
    r
}

/// Looks up the position of `key` in an ordered list of document keys.
pub fn position_of(keys: &Vec<DocKey>, key: &DocKey) -> (r: Option<usize>)
    ensures
        match r {
            Some(i) => i < keys@.len() && keys@[i as int]@ == key@,
            None => forall|j: int| 0 <= j < keys@.len() ==> keys@[j]@ != key@,
        },
{
    let n = keys.len();
    let mut j: usize = 0;
    while j < n
        invariant
            j <= n,
            n == keys@.len(),
            forall|k: int| 0 <= k < j ==> keys@[k]@ != key@,
        decreases n - j,
    {
        if keys[j].key_eq(key) {
            return Some(j);
        }
        j += 1;
    }
    None
}

} // verus!
