//! Finding the fields of a record among the children of a section, and
//! reading them as the types of the model.
use vstd::prelude::*;
use crate::metadata::deserialize::{elements_view, values_view, MetadataElement, MetadataValue};
use crate::metadata::grammar::{ElementView, ValueView};

verus! {

/// What looking for a name among the children of a section gives.
#[derive(Debug)]
pub enum Lookup<T> {
    /// No child of the kind sought has the name.
    Absent,
    /// Exactly one child of the kind sought has the name.
    One(T),
    /// More than one has.
    Many,
}

/// Child `i` is a scalar called `name`.
pub open spec fn is_scalar_at(children: Seq<ElementView>, name: Seq<char>, i: int) -> bool {
    0 <= i < children.len() && children[i] is Scalar && children[i]->Scalar_0 == name
}

/// Child `i` is a section called `name`.
pub open spec fn is_section_at(children: Seq<ElementView>, name: Seq<char>, i: int) -> bool {
    0 <= i < children.len() && children[i] is Section && children[i]->Section_0 == name
}

/// The value of the scalar called `name` among `children`.
pub open spec fn spec_scalar(children: Seq<ElementView>, name: Seq<char>) -> Lookup<ValueView> {
    if !(exists|i: int| is_scalar_at(children, name, i)) {
        Lookup::Absent
    } else {
        let i = choose|i: int| is_scalar_at(children, name, i);
        if forall|j: int| is_scalar_at(children, name, j) ==> j == i {
            Lookup::One(children[i]->Scalar_1)
        } else {
            Lookup::Many
        }
    }
}

/// The children of the section called `name` among `children`.
pub open spec fn spec_section(children: Seq<ElementView>, name: Seq<char>) -> Lookup<
    Seq<ElementView>,
> {
    if !(exists|i: int| is_section_at(children, name, i)) {
        Lookup::Absent
    } else {
        let i = choose|i: int| is_section_at(children, name, i);
        if forall|j: int| is_section_at(children, name, j) ==> j == i {
            Lookup::One(children[i]->Section_1)
        } else {
            Lookup::Many
        }
    }
}

/// What a value that was found stands for.
pub open spec fn found_value(l: Lookup<&MetadataValue>) -> Lookup<ValueView> {
    match l {
        Lookup::Absent => Lookup::Absent,
        Lookup::One(v) => Lookup::One(v@),
        Lookup::Many => Lookup::Many,
    }
}

/// What children that were found stand for.
pub open spec fn found_children(l: Lookup<&Vec<MetadataElement>>) -> Lookup<Seq<ElementView>> {
    match l {
        Lookup::Absent => Lookup::Absent,
        Lookup::One(c) => Lookup::One(elements_view(c@)),
        Lookup::Many => Lookup::Many,
    }
}

/// Looks for the scalar called `name` among `children`.
pub fn find_scalar<'a>(children: &'a Vec<MetadataElement>, name: &str) -> (r: Lookup<
    &'a MetadataValue,
>)
    ensures
        found_value(r) == spec_scalar(elements_view(children@), name@),
{
    let key: String = name.to_owned();
    let ghost views = elements_view(children@);
    let n: usize = children.len();
    let mut found: Option<usize> = None;
    let mut i: usize = 0;
    while i < n
        invariant
            n == children@.len(),
            views == elements_view(children@),
            key@ == name@,
            i <= n,
            match found {
                None => forall|j: int| 0 <= j < i ==> !is_scalar_at(views, name@, j),
                Some(f) => f < i && is_scalar_at(views, name@, f as int) && forall|j: int|
                    0 <= j < i && is_scalar_at(views, name@, j) ==> j == f,
            },
        decreases n - i,
    {
        match &children[i] {
            MetadataElement::Scalar(label, _) => {
                if *label == key {
                    match found {
                        None => {
                            found = Some(i);
                        },
                        Some(f) => {
                            proof {
                                assert(is_scalar_at(views, name@, i as int));
                                assert(is_scalar_at(views, name@, f as int));
                            }
                            return Lookup::Many;
                        },
                    }
                }
            },
            MetadataElement::Section(_, _) => {},
        }
        i = i + 1;
    }
    match found {
        None => Lookup::Absent,
        Some(f) => match &children[f] {
            MetadataElement::Scalar(_, value) => {
                proof {
                    assert(is_scalar_at(views, name@, f as int));
                }
                Lookup::One(value)
            },
            MetadataElement::Section(_, _) => Lookup::Absent,
        },
    }
}

/// Looks for the section called `name` among `children`.
pub fn find_section<'a>(children: &'a Vec<MetadataElement>, name: &str) -> (r: Lookup<
    &'a Vec<MetadataElement>,
>)
    ensures
        found_children(r) == spec_section(elements_view(children@), name@),
{
    let key: String = name.to_owned();
    let ghost views = elements_view(children@);
    let n: usize = children.len();
    let mut found: Option<usize> = None;
    let mut i: usize = 0;
    while i < n
        invariant
            n == children@.len(),
            views == elements_view(children@),
            key@ == name@,
            i <= n,
            match found {
                None => forall|j: int| 0 <= j < i ==> !is_section_at(views, name@, j),
                Some(f) => f < i && is_section_at(views, name@, f as int) && forall|j: int|
                    0 <= j < i && is_section_at(views, name@, j) ==> j == f,
            },
        decreases n - i,
    {
        match &children[i] {
            MetadataElement::Section(label, _) => {
                if *label == key {
                    match found {
                        None => {
                            found = Some(i);
                        },
                        Some(f) => {
                            proof {
                                assert(is_section_at(views, name@, i as int));
                                assert(is_section_at(views, name@, f as int));
                            }
                            return Lookup::Many;
                        },
                    }
                }
            },
            MetadataElement::Scalar(_, _) => {},
        }
        i = i + 1;
    }
    match found {
        None => Lookup::Absent,
        Some(f) => match &children[f] {
            MetadataElement::Section(label, inner) => {
                proof {
                    assert(is_section_at(views, name@, f as int));
                    crate::metadata::deserialize::lemma_section_view(*label, *inner);
                }
                Lookup::One(inner)
            },
            MetadataElement::Scalar(_, _) => Lookup::Absent,
        },
    }
}

/// A field that must be there and hold an integer that is not negative.
pub open spec fn spec_u64(l: Lookup<ValueView>) -> Option<u64> {
    match l {
        Lookup::One(ValueView::Int(n)) if n >= 0 => Some(n as u64),
        _ => None,
    }
}

/// A field that may be missing and otherwise holds an integer that is not
/// negative.
pub open spec fn spec_optional_u64(l: Lookup<ValueView>) -> Option<Option<u64>> {
    match l {
        Lookup::Absent => Some(None),
        Lookup::One(ValueView::Int(n)) if n >= 0 => Some(Some(n as u64)),
        _ => None,
    }
}

/// A field that must be there and hold a string.
pub open spec fn spec_text(l: Lookup<ValueView>) -> Option<Seq<char>> {
    match l {
        Lookup::One(ValueView::Str(s)) => Some(s),
        _ => None,
    }
}

/// The strings of an array all of whose items are strings.
pub open spec fn spec_strings(items: Seq<ValueView>) -> Option<Seq<Seq<char>>> {
    if forall|i: int| 0 <= i < items.len() ==> items[i] is Str {
        Some(Seq::new(items.len(), |i: int| items[i]->Str_0))
    } else {
        None
    }
}

/// A field that must be there and hold an array of strings.
pub open spec fn spec_flags(l: Lookup<ValueView>) -> Option<Seq<Seq<char>>> {
    match l {
        Lookup::One(ValueView::Array(items)) => spec_strings(items),
        _ => None,
    }
}

/// Item `2j` of the array is a string and item `2j + 1` an integer that is
/// not negative.
pub open spec fn is_stripe_at(items: Seq<ValueView>, j: int) -> bool {
    &&& items[2 * j] is Str
    &&& items[2 * j + 1] is Int
    &&& items[2 * j + 1]->Int_0 >= 0
}

/// The pairs of an array that alternates between the name of a physical
/// volume and an extent offset on it.
pub open spec fn spec_pairs(items: Seq<ValueView>) -> Option<Seq<(Seq<char>, u64)>> {
    if items.len() % 2 == 0 && forall|j: int| 0 <= j < items.len() / 2 ==> is_stripe_at(items, j) {
        Some(
            Seq::new(
                items.len() / 2,
                |j: int| (items[2 * j]->Str_0, items[2 * j + 1]->Int_0 as u64),
            ),
        )
    } else {
        None
    }
}

/// A field that may be missing, which stands for no pair, and otherwise
/// holds an array of pairs.
pub open spec fn spec_stripes(l: Lookup<ValueView>) -> Option<Seq<(Seq<char>, u64)>> {
    match l {
        Lookup::Absent => Some(Seq::empty()),
        Lookup::One(ValueView::Array(items)) => spec_pairs(items),
        _ => None,
    }
}

/// Reads a field that must hold an integer that is not negative.
pub fn read_u64(l: Lookup<&MetadataValue>) -> (r: Option<u64>)
    ensures
        r == spec_u64(found_value(l)),
{
    match l {
        Lookup::One(MetadataValue::Int(n)) => {
            if *n >= 0 {
                Some(*n as u64)
            } else {
                None
            }
        },
        _ => None,
    }
}

/// Reads a field that may be missing and otherwise holds an integer that is
/// not negative.
pub fn read_optional_u64(l: Lookup<&MetadataValue>) -> (r: Option<Option<u64>>)
    ensures
        r == spec_optional_u64(found_value(l)),
{
    match l {
        Lookup::Absent => Some(None),
        Lookup::One(MetadataValue::Int(n)) => {
            if *n >= 0 {
                Some(Some(*n as u64))
            } else {
                None
            }
        },
        _ => None,
    }
}

/// What a string that was read stands for.
pub open spec fn text_of(r: Option<String>) -> Option<Seq<char>> {
    match r {
        Some(s) => Some(s@),
        None => None,
    }
}

/// Reads a field that must hold a string.
pub fn read_text(l: Lookup<&MetadataValue>) -> (r: Option<String>)
    ensures
        text_of(r) == spec_text(found_value(l)),
{
    match l {
        Lookup::One(MetadataValue::Str(s)) => Some(s.clone()),
        _ => None,
    }
}

/// What strings that were read stand for.
pub open spec fn strings_of(r: Option<Vec<String>>) -> Option<Seq<Seq<char>>> {
    match r {
        Some(v) => Some(v.deep_view()),
        None => None,
    }
}

/// Reads a field that must hold an array of strings.
pub fn read_flags(l: Lookup<&MetadataValue>) -> (r: Option<Vec<String>>)
    ensures
        strings_of(r) == spec_flags(found_value(l)),
{
    match l {
        Lookup::One(MetadataValue::Array(items)) => {
            proof {
                crate::metadata::deserialize::lemma_array_view(*items);
            }
            let ghost views = values_view(items@);
            let n: usize = items.len();
            let mut out: Vec<String> = Vec::new();
            let mut i: usize = 0;
            while i < n
                invariant
                    n == items@.len(),
                    views == values_view(items@),
                    found_value(l) == Lookup::One(ValueView::Array(views)),
                    i <= n,
                    out@.len() == i,
                    forall|j: int| 0 <= j < i ==> views[j] is Str && out@[j]@ == views[j]->Str_0,
                decreases n - i,
            {
                match &items[i] {
                    MetadataValue::Str(s) => {
                        out.push(s.clone());
                    },
                    _ => {
                        proof {
                            assert(!(views[i as int] is Str));
                        }
                        return None;
                    },
                }
                i = i + 1;
            }
            proof {
                assert(out.deep_view() =~= spec_strings(views)->Some_0);
            }
            Some(out)
        },
        _ => None,
    }
}

/// What pairs that were read stand for.
pub open spec fn pairs_of(r: Option<Vec<(String, u64)>>) -> Option<Seq<(Seq<char>, u64)>> {
    match r {
        Some(v) => Some(v.deep_view()),
        None => None,
    }
}

/// Reads a field that may be missing and otherwise holds an array that
/// alternates between a name and an offset.
pub fn read_stripes(l: Lookup<&MetadataValue>) -> (r: Option<Vec<(String, u64)>>)
    ensures
        pairs_of(r) == spec_stripes(found_value(l)),
{
    match l {
        Lookup::Absent => {
            let out: Vec<(String, u64)> = Vec::new();
            proof {
                assert(out.deep_view() =~= Seq::<(Seq<char>, u64)>::empty());
            }
            Some(out)
        },
        Lookup::One(MetadataValue::Array(items)) => {
            proof {
                crate::metadata::deserialize::lemma_array_view(*items);
            }
            let ghost views = values_view(items@);
            let n: usize = items.len();
            if n % 2 != 0 {
                return None;
            }
            let half: usize = n / 2;
            let mut out: Vec<(String, u64)> = Vec::new();
            let mut j: usize = 0;
            while j < half
                invariant
                    n == items@.len(),
                    n == 2 * half,
                    views == values_view(items@),
                    found_value(l) == Lookup::One(ValueView::Array(views)),
                    j <= half,
                    out@.len() == j,
                    forall|k: int|
                        0 <= k < j ==> is_stripe_at(views, k) && out@[k].0@ == views[2 * k]->Str_0
                            && out@[k].1 == views[2 * k + 1]->Int_0 as u64,
                decreases half - j,
            {
                match (&items[2 * j], &items[2 * j + 1]) {
                    (MetadataValue::Str(name), MetadataValue::Int(offset)) => {
                        if *offset < 0 {
                            proof {
                                assert(!is_stripe_at(views, j as int));
                            }
                            return None;
                        }
                        out.push((name.clone(), *offset as u64));
                    },
                    _ => {
                        proof {
                            assert(!is_stripe_at(views, j as int));
                        }
                        return None;
                    },
                }
                j = j + 1;
            }
            proof {
                let want = spec_pairs(views)->Some_0;
                assert(out.deep_view().len() == want.len());
                assert forall|k: int| 0 <= k < half implies out.deep_view()[k] == want[k] by {
                    assert(is_stripe_at(views, k));
                    assert(out.deep_view()[k] == (out@[k].0@, out@[k].1));
                }
                assert(out.deep_view() =~= want);
            }
            Some(out)
        },
        _ => None,
    }
}

} // verus!
