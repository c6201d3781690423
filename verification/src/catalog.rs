//! The template catalog: the file names of one directory snapshot,
//! addressable by their display identifier — the file name with every
//! trailing `.txt` extension stripped.

use vstd::prelude::*;

verus! {

/// The byte `.`.
pub const DOT: u8 = 46;
/// The byte `t`.
pub const LOWER_T: u8 = 116;
/// The byte `x`.
pub const LOWER_X: u8 = 120;

/// `s` ends in the template-file extension `.txt`.
pub open spec fn has_ext(s: Seq<u8>) -> bool {
    &&& s.len() >= 4
    &&& s[s.len() - 4] == DOT
    &&& s[s.len() - 3] == LOWER_T
    &&& s[s.len() - 2] == LOWER_X
    &&& s[s.len() - 1] == LOWER_T
}

/// `s` with every trailing `.txt` extension removed: the display identifier
/// of a template file name.
pub open spec fn strip_ext_spec(s: Seq<u8>) -> Seq<u8>
    decreases s.len(),
{
    if has_ext(s) {
        strip_ext_spec(s.take(s.len() - 4))
    } else {
        s
    }
}

/// Strip every trailing `.txt` extension from a file name.
pub fn strip_extension(name: &Vec<u8>) -> (out: Vec<u8>)
    ensures
        out@ == strip_ext_spec(name@),
{
    let ghost s = name@;
    let mut n: usize = name.len();
    proof {
        assert(s.take(s.len() as int) =~= s);
    }
    while n >= 4 && name[n - 4] == DOT && name[n - 3] == LOWER_T && name[n - 2] == LOWER_X
        && name[n - 1] == LOWER_T
        invariant
            n <= s.len(),
            name@ == s,
            strip_ext_spec(s) == strip_ext_spec(s.take(n as int)),
        decreases n,
    {
        proof {
            let t = s.take(n as int);
            assert(t[n - 4] == s[n - 4]);
            assert(t[n - 3] == s[n - 3]);
            assert(t[n - 2] == s[n - 2]);
            assert(t[n - 1] == s[n - 1]);
            assert(has_ext(t));
            assert(t.take(n - 4) =~= s.take(n - 4));
        }
        n = n - 4;
    }
    proof {
        let t = s.take(n as int);
        if n >= 4 {
            assert(s[n - 4] == t[n - 4]);
            assert(s[n - 3] == t[n - 3]);
            assert(s[n - 2] == t[n - 2]);
            assert(s[n - 1] == t[n - 1]);
        }
        assert(!has_ext(t));
    }
    let mut out: Vec<u8> = Vec::new();
    let mut i: usize = 0;
    while i < n
        invariant
            i <= n <= s.len(),
            name@ == s,
            out@ == s.take(i as int),
        decreases n - i,
    {
        out.push(name[i]);
        assert(out@ =~= s.take(i + 1));
        i = i + 1;
    }
    out
}

/// Compare two byte strings for exact equality.
pub fn bytes_eq(a: &Vec<u8>, b: &Vec<u8>) -> (r: bool)
    ensures
        r == (a@ == b@),
{
    if a.len() != b.len() {
        return false;
    }
    let mut i: usize = 0;
    while i < a.len()
        invariant
            i <= a@.len(),
            a@.len() == b@.len(),
            forall|k: int| 0 <= k < i ==> a@[k] == b@[k],
        decreases a@.len() - i,
    {
        if a[i] != b[i] {
            return false;
        }
        i = i + 1;
    }
    proof {
        assert(a@ =~= b@);
    }
    true
}

/// Copy a byte string.
pub fn copy_bytes(src: &Vec<u8>) -> (out: Vec<u8>)
    ensures
        out@ == src@,
{
    let mut out: Vec<u8> = Vec::new();
    let mut i: usize = 0;
    while i < src.len()
        invariant
            i <= src@.len(),
            out@ == src@.take(i as int),
        decreases src@.len() - i,
    {
        out.push(src[i]);
        assert(out@ =~= src@.take(i + 1));
        i = i + 1;
    }
    proof {
        assert(src@.take(src@.len() as int) =~= src@);
    }
    out
}

/// A failure of the catalog lookup.
#[derive(Debug, PartialEq, Eq)]
pub enum CatalogError {
    /// No entry's identifier matches the requested name; carries the name.
    NotFound(Vec<u8>),
}

/// The set of templates available in one directory snapshot: the raw file
/// names, in enumeration order.
pub struct Catalog {
    pub entries: Vec<Vec<u8>>,
}

impl Catalog {
    /// The raw file names the catalog was built from.
    pub open spec fn names(&self) -> Seq<Seq<u8>> {
        self.entries@.map_values(|e: Vec<u8>| e@)
    }

    /// The identifiers the catalog displays: each file name with its
    /// extension stripped, in the same order.
    pub open spec fn identifiers(&self) -> Seq<Seq<u8>> {
        self.names().map_values(|n: Seq<u8>| strip_ext_spec(n))
    }

    /// Build the catalog from the file names of one directory snapshot.
    pub fn new(entries: Vec<Vec<u8>>) -> (c: Catalog)
        ensures
            c.names() == entries@.map_values(|e: Vec<u8>| e@),
    {
        Catalog { entries }
    }

    /// How many templates the catalog holds.
    pub fn len(&self) -> (n: usize)
        ensures
            n == self.names().len(),
    {
        self.entries.len()
    }

    /// List every template identifier, in catalog order.
    pub fn list(&self) -> (ids: Vec<Vec<u8>>)
        ensures
            ids@.map_values(|e: Vec<u8>| e@) == self.identifiers(),
    {
        let mut ids: Vec<Vec<u8>> = Vec::new();
        let mut i: usize = 0;
        while i < self.entries.len()
            invariant
                i <= self.entries@.len(),
                ids@.map_values(|e: Vec<u8>| e@) == self.identifiers().take(i as int),
            decreases self.entries@.len() - i,
        {
            let ghost prev = ids@;
            let id = strip_extension(&self.entries[i]);
            ids.push(id);
            proof {
                assert(self.identifiers().len() == self.entries@.len());
                assert(prev.map_values(|e: Vec<u8>| e@).len() == prev.len());
                assert(prev.len() == i);
                assert(self.names()[i as int] == self.entries@[i as int]@);
                assert(self.identifiers()[i as int] == strip_ext_spec(self.names()[i as int]));
                assert forall|k: int|
                    0 <= k < i + 1 implies ids@.map_values(|e: Vec<u8>| e@)[k] == #[trigger] self
                    .identifiers().take(i + 1)[k] by {
                    if k < i {
                        assert(ids@[k] == prev[k]);
                        assert(prev.map_values(|e: Vec<u8>| e@)[k] == self.identifiers().take(
                            i as int,
                        )[k]);
                    } else {
                        assert(ids@[k] == id);
                    }
                }
                assert(ids@.map_values(|e: Vec<u8>| e@) =~= self.identifiers().take(i + 1));
            }
            i = i + 1;
        }
        proof {
            assert(self.identifiers().take(self.entries@.len() as int) =~= self.identifiers());
        }
        ids
    }

    /// Resolve an identifier to the first raw file name whose stripped form
    /// matches it exactly; fail when no entry matches.
    pub fn resolve(&self, name: &Vec<u8>) -> (r: Result<Vec<u8>, CatalogError>)
        ensures
            match r {
                Ok(f) => exists|i: int|
                    0 <= i < self.identifiers().len() && #[trigger] self.identifiers()[i] == name@
                        && f@ == self.names()[i] && (forall|j: int|
                        0 <= j < i ==> #[trigger] self.identifiers()[j] != name@),
                Err(e) => (forall|i: int|
                    0 <= i < self.identifiers().len() ==> #[trigger] self.identifiers()[i]
                        != name@) && (e matches CatalogError::NotFound(m) && m@ == name@),
            },
    {
        let mut i: usize = 0;
        while i < self.entries.len()
            invariant
                i <= self.entries@.len(),
                forall|j: int| 0 <= j < i ==> #[trigger] self.identifiers()[j] != name@,
            decreases self.entries@.len() - i,
        {
            let id = strip_extension(&self.entries[i]);
            if bytes_eq(&id, name) {
                proof {
                    assert(self.names()[i as int] == self.entries@[i as int]@);
                    assert(self.identifiers()[i as int] == strip_ext_spec(self.names()[i as int]));
                }
                let found = copy_bytes(&self.entries[i]);
                return Ok(found);
            }
            proof {
                assert(self.names()[i as int] == self.entries@[i as int]@);
                assert(self.identifiers()[i as int] == strip_ext_spec(self.names()[i as int]));
            }
            i = i + 1;
        }
        Err(CatalogError::NotFound(copy_bytes(name)))
    }
}

} // verus!
