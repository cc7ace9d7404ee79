//! Reference data: the elements that detections are labelled with.
use vstd::prelude::*;

verus! {

/// An element symbol of one or two characters.
#[derive(Debug, Clone, Copy, PartialEq, Eq, Structural)]
pub enum Id {
    Single(char),
    Double(char, char),
}

impl Id {
    /// The symbol made of `chars`; `None` unless it has one or two characters.
    pub fn from_chars(chars: &[char]) -> (r: Option<Id>)
        ensures
            chars@.len() == 1 ==> r == Some(Id::Single(chars@[0])),
            chars@.len() == 2 ==> r == Some(Id::Double(chars@[0], chars@[1])),
            chars@.len() != 1 && chars@.len() != 2 ==> r is None,
    {
        if chars.len() == 1 {
            Some(Id::Single(chars[0]))
        } else if chars.len() == 2 {
            Some(Id::Double(chars[0], chars[1]))
        } else {
            None
        }
    }
}

#[derive(Debug, Clone, Copy, PartialEq, Eq, Structural)]
pub enum SpecialAtom {
    Plus,
    Minus,
    DarkPlus,
    Neutrino,
    Luxon,
}

#[derive(Debug, Clone, Copy, PartialEq, Eq, Structural)]
pub enum ElementType {
    /// A periodic-table element with its atomic number.
    Periodic(u32),
    Special(SpecialAtom),
}

/// One entry of the reference data: symbol, kind, display name and color.
#[derive(Debug)]
pub struct Element {
    pub id: Id,
    pub element_type: ElementType,
    pub name: String,
    pub rgb: (u8, u8, u8),
}

impl Clone for Element {
    fn clone(&self) -> (r: Element)
        ensures
            r == *self,
    {
        Element { id: self.id, element_type: self.element_type, name: self.name.clone(), rgb: self.rgb }
    }
}

/// Relies on str::to_lowercase; the result depends on the characters alone.
pub uninterp spec fn lowercase_of(s: Seq<char>) -> Seq<char>;

/// Relies on str::to_uppercase; the result depends on the characters alone.
pub uninterp spec fn uppercase_of(s: Seq<char>) -> Seq<char>;

/// Relies on str::to_lowercase (Unicode lower case of every character).
#[verifier::external_body]
pub(crate) fn to_lower(s: &str) -> (r: String)
    ensures
        r@ == lowercase_of(s@),
{
    s.to_lowercase()
}

/// Relies on str::to_uppercase (Unicode upper case of every character).
#[verifier::external_body]
pub(crate) fn to_upper(s: &str) -> (r: String)
    ensures
        r@ == uppercase_of(s@),
{
    s.to_uppercase()
}

/// `a` followed by `b`.
pub(crate) fn joined(a: &str, b: &str) -> (r: String)
    ensures
        r@ == a@ + b@,
{
    let mut r = a.to_owned();
    r.append(b);
    r
}

/// Names under which an element's template image may be stored.
pub open spec fn template_names(name: Seq<char>) -> Seq<Seq<char>> {
    seq![name, lowercase_of(name), seq!['_'] + name, seq!['_'] + lowercase_of(name)]
}

impl Element {
    /// The name, its lower case, and both with a leading underscore.
    pub fn get_templates(&self) -> (r: Vec<String>)
        ensures
            r@.map_values(|t: String| t@) == template_names(self.name@),
    {
        let lower = to_lower(self.name.as_str());
        let underscore = "_";
        proof {
            reveal_strlit("_");
        }
        assert(underscore@ =~= seq!['_']);
        let prefixed = joined(underscore, self.name.as_str());
        let prefixed_lower = joined(underscore, lower.as_str());
        let mut r: Vec<String> = Vec::new();
        r.push(self.name.clone());
        r.push(lower);
        r.push(prefixed);
        r.push(prefixed_lower);
        assert(r@.map_values(|t: String| t@) =~= template_names(self.name@));
        r
    }

    pub fn get_color(&self) -> (r: (u8, u8, u8))
        ensures
            r == self.rgb,
    {
        self.rgb
    }

    pub fn get_name(&self) -> (r: &str)
        ensures
            r@ == self.name@,
    {
        self.name.as_str()
    }
}

/// Index of the first element named `name`.
pub open spec fn first_named(elems: Seq<Element>, name: Seq<char>) -> Option<int>
    decreases elems.len(),
{
    if elems.len() == 0 {
        None
    } else if elems[0].name@ == name {
        Some(0)
    } else {
        match first_named(elems.drop_first(), name) {
            Some(i) => Some(i + 1),
            None => None,
        }
    }
}

proof fn lemma_first_named(elems: Seq<Element>, name: Seq<char>, i: int)
    requires
        0 <= i <= elems.len(),
        i < elems.len() ==> elems[i].name@ == name,
        forall|j: int| 0 <= j < i ==> elems[j].name@ != name,
    ensures
        first_named(elems, name) == if i < elems.len() { Some(i) } else { None::<int> },
    decreases i,
{
    if i > 0 {
        let t = elems.drop_first();
        assert forall|j: int| 0 <= j < i - 1 implies t[j].name@ != name by {
            assert(t[j] == elems[j + 1]);
        }
        lemma_first_named(t, name, i - 1);
    }
}

/// The immutable lookup table of elements.
#[derive(Debug)]
pub struct Data {
    pub elements: Vec<Element>,
}

impl Data {
    /// The first element whose name is `name`.
    pub fn find(&self, name: &str) -> (r: Option<&Element>)
        ensures
            match first_named(self.elements@, name@) {
                Some(i) => r == Some(&self.elements@[i]),
                None => r is None,
            },
    {
        let wanted = name.to_owned();
        let mut i: usize = 0;
        while i < self.elements.len()
            invariant
                i <= self.elements@.len(),
                wanted@ == name@,
                forall|j: int| 0 <= j < i ==> self.elements@[j].name@ != name@,
            decreases self.elements@.len() - i,
        {
            if self.elements[i].name == wanted {
                proof {
                    lemma_first_named(self.elements@, name@, i as int);
                }
                return Some(&self.elements[i]);
            }
            i = i + 1;
        }
        proof {
            lemma_first_named(self.elements@, name@, i as int);
        }
        None
    }
}

} // verus!
