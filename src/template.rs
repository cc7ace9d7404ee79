//! Where template images are looked for, and under which file names.
use vstd::prelude::*;

use crate::elements::{joined, lowercase_of, to_lower, to_upper, uppercase_of};

verus! {

/// The five file names tried for `name` with extension `ext`: exact, lower
/// case, underscore-prefixed exact and lower case, and upper case.
pub open spec fn names_for_extension(name: Seq<char>, ext: Seq<char>) -> Seq<Seq<char>> {
    let dot_ext = seq!['.'] + ext;
    seq![
        name + dot_ext,
        lowercase_of(name) + dot_ext,
        seq!['_'] + name + dot_ext,
        seq!['_'] + lowercase_of(name) + dot_ext,
        uppercase_of(name) + dot_ext,
    ]
}

/// Candidate file names for `name`, extension by extension.
pub open spec fn candidate_names(name: Seq<char>, exts: Seq<Seq<char>>) -> Seq<Seq<char>>
    decreases exts.len(),
{
    if exts.len() == 0 {
        Seq::empty()
    } else {
        candidate_names(name, exts.drop_last()) + names_for_extension(name, exts.last())
    }
}

pub open spec fn strings_view(v: Seq<String>) -> Seq<Seq<char>> {
    v.map_values(|s: String| s@)
}

/// Template directories and accepted image extensions.
#[derive(Debug)]
pub struct TemplateLoader {
    template_dirs: Vec<String>,
    supported_extensions: Vec<String>,
}

impl TemplateLoader {
    pub closed spec fn dirs(&self) -> Seq<Seq<char>> {
        strings_view(self.template_dirs@)
    }

    pub closed spec fn extensions(&self) -> Seq<Seq<char>> {
        strings_view(self.supported_extensions@)
    }

    pub open spec fn new_extensions() -> Seq<Seq<char>> {
        seq!["png"@, "jpg"@, "jpeg"@, "bmp"@]
    }

    /// No directories; extensions png, jpg, jpeg and bmp.
    pub fn new() -> (r: TemplateLoader)
        ensures
            r.dirs() == Seq::<Seq<char>>::empty(),
            r.extensions() == seq!["png"@, "jpg"@, "jpeg"@, "bmp"@],
    {
        let mut exts: Vec<String> = Vec::new();
        exts.push("png".to_owned());
        exts.push("jpg".to_owned());
        exts.push("jpeg".to_owned());
        exts.push("bmp".to_owned());
        let r = TemplateLoader { template_dirs: Vec::new(), supported_extensions: exts };
        assert(r.dirs() =~= Seq::<Seq<char>>::empty());
        assert(r.extensions() =~= seq!["png"@, "jpg"@, "jpeg"@, "bmp"@]);
        r
    }

    pub fn add_template_dir(self, dir: &str) -> (r: TemplateLoader)
        ensures
            r.dirs() == self.dirs().push(dir@),
            r.extensions() == self.extensions(),
    {
        let mut l = self;
        l.template_dirs.push(dir.to_owned());
        assert(strings_view(l.template_dirs@) =~= strings_view(self.template_dirs@).push(dir@));
        l
    }

    pub fn add_extension(self, ext: String) -> (r: TemplateLoader)
        ensures
            r.dirs() == self.dirs(),
            r.extensions() == self.extensions().push(ext@),
    {
        let mut l = self;
        l.supported_extensions.push(ext);
        assert(strings_view(l.supported_extensions@) =~= strings_view(self.supported_extensions@).push(
            ext@,
        ));
        l
    }

    pub fn template_dirs(&self) -> (r: &Vec<String>)
        ensures
            strings_view(r@) == self.dirs(),
    {
        &self.template_dirs
    }

    pub fn supported_extensions(&self) -> (r: &Vec<String>)
        ensures
            strings_view(r@) == self.extensions(),
    {
        &self.supported_extensions
    }

    /// Whether a file extension, compared in lower case, is accepted.
    pub fn supports_extension(&self, ext: &str) -> (r: bool)
        ensures
            r == self.extensions().contains(lowercase_of(ext@)),
    {
        let lower = to_lower(ext);
        let ghost exts = self.extensions();
        let mut i: usize = 0;
        while i < self.supported_extensions.len()
            invariant
                i <= self.supported_extensions@.len(),
                exts == strings_view(self.supported_extensions@),
                lower@ == lowercase_of(ext@),
                forall|j: int| 0 <= j < i ==> exts[j] != lower@,
            decreases self.supported_extensions@.len() - i,
        {
            if self.supported_extensions[i] == lower {
                assert(exts[i as int] == lower@);
                return true;
            }
            i = i + 1;
        }
        false
    }

    /// File names to look for, in the order they are tried.
    pub fn generate_template_candidates(&self, name: &str) -> (r: Vec<String>)
        ensures
            strings_view(r@) == candidate_names(name@, self.extensions()),
    {
        let lower = to_lower(name);
        let upper = to_upper(name);
        let underscore = "_";
        let dot = ".";
        proof {
            reveal_strlit("_");
            reveal_strlit(".");
        }
        assert(underscore@ =~= seq!['_']);
        assert(dot@ =~= seq!['.']);
        let prefixed = joined(underscore, name);
        let prefixed_lower = joined(underscore, lower.as_str());
        let ghost exts = self.extensions();
        let mut candidates: Vec<String> = Vec::new();
        let mut i: usize = 0;
        while i < self.supported_extensions.len()
            invariant
                i <= self.supported_extensions@.len(),
                exts == strings_view(self.supported_extensions@),
                lower@ == lowercase_of(name@),
                upper@ == uppercase_of(name@),
                prefixed@ == seq!['_'] + name@,
                prefixed_lower@ == seq!['_'] + lowercase_of(name@),
                dot@ == seq!['.'],
                strings_view(candidates@) == candidate_names(name@, exts.take(i as int)),
            decreases self.supported_extensions@.len() - i,
        {
            let dot_ext = joined(dot, self.supported_extensions[i].as_str());
            let ghost before = candidates@;
            candidates.push(joined(name, dot_ext.as_str()));
            candidates.push(joined(lower.as_str(), dot_ext.as_str()));
            candidates.push(joined(prefixed.as_str(), dot_ext.as_str()));
            candidates.push(joined(prefixed_lower.as_str(), dot_ext.as_str()));
            candidates.push(joined(upper.as_str(), dot_ext.as_str()));
            proof {
                assert(exts.take(i + 1).drop_last() =~= exts.take(i as int));
                assert(exts.take(i + 1).last() == self.supported_extensions@[i as int]@);
                let e = self.supported_extensions@[i as int]@;
                assert(seq!['_'] + name@ + (seq!['.'] + e) =~= prefixed@ + dot_ext@);
                assert(seq!['_'] + lowercase_of(name@) + (seq!['.'] + e) =~= prefixed_lower@ + dot_ext@);
                assert(strings_view(candidates@) =~= strings_view(before) + names_for_extension(name@, e));
            }
            i = i + 1;
        }
        assert(exts.take(exts.len() as int) =~= exts);
        candidates
    }
}

impl Default for TemplateLoader {
    fn default() -> (r: TemplateLoader)
        ensures
            r.dirs() == Seq::<Seq<char>>::empty(),
            r.extensions() == seq!["png"@, "jpg"@, "jpeg"@, "bmp"@],
    {
        TemplateLoader::new()
    }
}

} // verus!
