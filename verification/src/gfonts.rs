//! Fonts from the Google Fonts download list: which of a family's files to
//! fetch.
use vstd::prelude::*;
use vstd::utf8::encode_utf8;

verus! {

/// A file of a font family: its name and where to download it.
pub struct FileRef {
    pub filename: String,
    pub url: String,
}

/// The files of a font family.
pub struct Manifest {
    pub file_refs: Vec<FileRef>,
}

/// The download list of a font family.
pub struct FamilyFileList {
    pub manifest: Manifest,
}

/// `s` ends with `suffix`, byte for byte.
pub open spec fn ends_with(s: Seq<u8>, suffix: Seq<u8>) -> bool {
    suffix.len() <= s.len() && s.subrange(s.len() - suffix.len(), s.len() as int) == suffix
}

/// The file's name ends with `name`.
pub open spec fn file_matches(f: FileRef, name: Seq<char>) -> bool {
    ends_with(encode_utf8(f.filename@), encode_utf8(name))
}

/// File `i` is the first whose name ends with `name`.
pub open spec fn first_match(refs: Seq<FileRef>, name: Seq<char>, i: int) -> bool {
    &&& 0 <= i < refs.len()
    &&& file_matches(refs[i], name)
    &&& forall|j: int| 0 <= j < i ==> !file_matches(#[trigger] refs[j], name)
}

/// Whether the bytes `s` end with the bytes `suffix`.
pub fn ends_with_bytes(s: &[u8], suffix: &[u8]) -> (r: bool)
    ensures
        r == ends_with(s@, suffix@),
{
    let n = s.len();
    let m = suffix.len();
    if m > n {
        return false;
    }
    let mut k: usize = 0;
    while k < m
        invariant
            n == s@.len(),
            m == suffix@.len(),
            m <= n,
            k <= m,
            forall|t: int| 0 <= t < k ==> s@[n - m + t] == suffix@[t],
        decreases m - k,
    {
        if s[n - m + k] != suffix[k] {
            proof {
                assert(s@.subrange(n - m, n as int)[k as int] != suffix@[k as int]);
            }
            return false;
        }
        k += 1;
    }
    proof {
        assert(s@.subrange(n - m, n as int) =~= suffix@);
    }
    true
}

impl FamilyFileList {
    /// The download address of the first file whose name ends with `filename`.
    pub fn find_file_url(&self, filename: &str) -> (r: Option<String>)
        ensures
            match r {
                Some(u) => exists|i: int|
                    #[trigger] first_match(self.manifest.file_refs@, filename@, i) && u@
                        == self.manifest.file_refs@[i].url@,
                None => forall|i: int|
                    0 <= i < self.manifest.file_refs@.len() ==> !file_matches(
                        #[trigger] self.manifest.file_refs@[i],
                        filename@,
                    ),
            },
    {
        let refs = &self.manifest.file_refs;
        let pattern = filename.as_bytes();
        let mut i: usize = 0;
        while i < refs.len()
            invariant
                refs@ == self.manifest.file_refs@,
                pattern@ == encode_utf8(filename@),
                i <= refs@.len(),
                forall|j: int| 0 <= j < i ==> !file_matches(#[trigger] refs@[j], filename@),
            decreases refs@.len() - i,
        {
            let f = &refs[i];
            if ends_with_bytes(f.filename.as_str().as_bytes(), pattern) {
                let u = f.url.clone();
                proof {
                    assert(file_matches(refs@[i as int], filename@));
                    assert(first_match(refs@, filename@, i as int));
                    assert(u@ == refs@[i as int].url@);
                }
                return Some(u);
            }
            i += 1;
        }
        None
    }
}

} // verus!
