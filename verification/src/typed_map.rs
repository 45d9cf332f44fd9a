//! The typed keyed map: the sections among the children of a section, each
//! read as a record of one type and kept under its name, in the order of
//! the text.
use vstd::prelude::*;
use crate::metadata::deserialize::{elements_view, lemma_section_view, MetadataElement};
use crate::metadata::grammar::ElementView;

verus! {

/// A record that can be read from the children of a section.
pub trait FromSection: DeepView + Sized {
    /// The record that the children stand for, if they stand for one.
    spec fn spec_from_section(children: Seq<ElementView>) -> Option<<Self as DeepView>::V>;

    /// Reads the record from the children of a section.
    fn from_section(children: &Vec<MetadataElement>) -> (r: Option<Self>)
        ensures
            match r {
                Some(t) => Self::spec_from_section(elements_view(children@)) == Some(
                    t.deep_view(),
                ),
                None => Self::spec_from_section(elements_view(children@)) is None,
            },
    ;
}

/// Records kept under their names, in the order of the text. No name
/// occurs twice in a map that was read.
#[derive(Debug)]
pub struct TypedMap<T>(pub Vec<(String, T)>);

impl<T: DeepView> DeepView for TypedMap<T> {
    type V = Seq<(Seq<char>, T::V)>;

    open spec fn deep_view(&self) -> Seq<(Seq<char>, T::V)> {
        self.0.deep_view()
    }
}

/// Some entry of the map has the name.
pub open spec fn has_key<V>(m: Seq<(Seq<char>, V)>, name: Seq<char>) -> bool {
    exists|i: int| 0 <= i < m.len() && (#[trigger] m[i]).0 == name
}

/// No name occurs twice in the map.
pub open spec fn distinct_keys<V>(m: Seq<(Seq<char>, V)>) -> bool {
    forall|i: int, j: int|
        0 <= i < m.len() && 0 <= j < m.len() && i != j ==> (#[trigger] m[i]).0 != (#[trigger] m[j]).0
}

/// Entry `i` is the first one with the name.
pub open spec fn is_first<V>(m: Seq<(Seq<char>, V)>, name: Seq<char>, i: int) -> bool {
    &&& 0 <= i < m.len()
    &&& m[i].0 == name
    &&& forall|j: int| 0 <= j < i ==> (#[trigger] m[j]).0 != name
}

/// The position of the first entry with the name, if there is one.
pub open spec fn spec_first<V>(m: Seq<(Seq<char>, V)>, name: Seq<char>) -> Option<int> {
    if exists|i: int| is_first(m, name, i) {
        Some(choose|i: int| is_first(m, name, i))
    } else {
        None
    }
}

/// The first entry with a name is found at `i` exactly if `i` is that
/// entry's position.
pub proof fn lemma_first<V>(m: Seq<(Seq<char>, V)>, name: Seq<char>, i: int)
    requires
        is_first(m, name, i),
    ensures
        spec_first(m, name) == Some(i),
{
    let c = choose|c: int| is_first(m, name, c);
    if c < i {
        assert(m[c].0 != name);
    } else if i < c {
        assert(m[i].0 != name);
    }
}

/// Without an entry of the name there is no first one.
pub proof fn lemma_no_first<V>(m: Seq<(Seq<char>, V)>, name: Seq<char>)
    requires
        !has_key(m, name),
    ensures
        spec_first(m, name) is None,
{
    if exists|i: int| is_first(m, name, i) {
        let c = choose|c: int| is_first(m, name, c);
        assert(m[c].0 == name);
    }
}

/// The map that the children of a section stand for: every section among
/// them is read by `project` and entered under its name; scalars are
/// passed over. There is none if a section cannot be read or a name
/// occurs twice.
pub open spec fn spec_typed_map<V>(
    children: Seq<ElementView>,
    project: spec_fn(Seq<ElementView>) -> Option<V>,
) -> Option<Seq<(Seq<char>, V)>>
    decreases children.len(),
{
    if children.len() == 0 {
        Some(Seq::empty())
    } else {
        match (spec_typed_map(children.drop_last(), project), children.last()) {
            (None, _) => None,
            (Some(m), ElementView::Scalar(_, _)) => Some(m),
            (Some(m), ElementView::Section(name, inner)) => match project(inner) {
                Some(v) if !has_key(m, name) => Some(m.push((name, v))),
                _ => None,
            },
        }
    }
}

/// Where the children up to some point stand for no map, all of them stand
/// for none.
pub proof fn lemma_typed_map_fails<V>(
    children: Seq<ElementView>,
    project: spec_fn(Seq<ElementView>) -> Option<V>,
    upto: int,
)
    requires
        0 <= upto <= children.len(),
        spec_typed_map(children.take(upto), project) is None,
    ensures
        spec_typed_map(children, project) is None,
    decreases children.len(),
{
    if upto < children.len() {
        assert(children.drop_last().take(upto) =~= children.take(upto));
        lemma_typed_map_fails(children.drop_last(), project, upto);
    } else {
        assert(children.take(upto) =~= children);
    }
}

/// A map that was read holds no name twice.
pub proof fn lemma_typed_map_distinct<V>(
    children: Seq<ElementView>,
    project: spec_fn(Seq<ElementView>) -> Option<V>,
)
    ensures
        match spec_typed_map(children, project) {
            Some(m) => distinct_keys(m),
            None => true,
        },
    decreases children.len(),
{
    if children.len() > 0 {
        lemma_typed_map_distinct(children.drop_last(), project);
    }
}

impl<T: DeepView> TypedMap<T> {
    /// The position of the first entry with the name, if there is one.
    pub fn position(&self, name: &str) -> (r: Option<usize>)
        ensures
            match r {
                Some(i) => spec_first(self.deep_view(), name@) == Some(i as int) && is_first(
                    self.deep_view(),
                    name@,
                    i as int,
                ),
                None => spec_first(self.deep_view(), name@) is None && !has_key(
                    self.deep_view(),
                    name@,
                ),
            },
    {
        let key: String = name.to_owned();
        let ghost m = self.deep_view();
        let n: usize = self.0.len();
        let mut i: usize = 0;
        while i < n
            invariant
                n == self.0@.len(),
                m == self.deep_view(),
                key@ == name@,
                i <= n,
                forall|j: int| 0 <= j < i ==> (#[trigger] m[j]).0 != name@,
            decreases n - i,
        {
            if self.0[i].0 == key {
                proof {
                    assert(m[i as int].0 == self.0@[i as int].0@);
                    lemma_first(m, name@, i as int);
                }
                return Some(i);
            }
            proof {
                assert(m[i as int].0 == self.0@[i as int].0@);
            }
            i = i + 1;
        }
        proof {
            lemma_no_first(m, name@);
        }
        None
    }

    /// The first record with the name, if there is one.
    pub fn get(&self, name: &str) -> (r: Option<&T>)
        ensures
            match r {
                Some(t) => spec_first(self.deep_view(), name@) is Some && t.deep_view()
                    == self.deep_view()[spec_first(self.deep_view(), name@)->Some_0].1,
                None => spec_first(self.deep_view(), name@) is None,
            },
    {
        match self.position(name) {
            Some(i) => Some(&self.0[i].1),
            None => None,
        }
    }

    /// The number of entries.
    pub fn len(&self) -> (n: usize)
        ensures
            n == self.deep_view().len(),
    {
        self.0.len()
    }
}

impl<T: FromSection> TypedMap<T> {
    /// The map that the children of a section stand for.
    pub open spec fn spec_from_elements(children: Seq<ElementView>) -> Option<
        Seq<(Seq<char>, <T as DeepView>::V)>,
    > {
        spec_typed_map(children, |c: Seq<ElementView>| T::spec_from_section(c))
    }

    /// Reads the map from the children of a section.
    pub fn from_elements(children: &Vec<MetadataElement>) -> (r: Option<TypedMap<T>>)
        ensures
            match r {
                Some(m) => Self::spec_from_elements(elements_view(children@)) == Some(
                    m.deep_view(),
                ) && distinct_keys(m.deep_view()),
                None => Self::spec_from_elements(elements_view(children@)) is None,
            },
    {
        let ghost views = elements_view(children@);
        let ghost project = |c: Seq<ElementView>| T::spec_from_section(c);
        let n: usize = children.len();
        let mut map: TypedMap<T> = TypedMap(Vec::new());
        let mut i: usize = 0;
        proof {
            assert(views.take(0) =~= Seq::<ElementView>::empty());
            assert(map.deep_view() =~= Seq::<(Seq<char>, <T as DeepView>::V)>::empty());
        }
        while i < n
            invariant
                n == children@.len(),
                views == elements_view(children@),
                project == (|c: Seq<ElementView>| T::spec_from_section(c)),
                i <= n,
                spec_typed_map(views.take(i as int), project) == Some(map.deep_view()),
            decreases n - i,
        {
            proof {
                assert(views.take(i + 1).drop_last() =~= views.take(i as int));
                assert(views.take(i + 1).last() == views[i as int]);
            }
            match &children[i] {
                MetadataElement::Scalar(_, _) => {},
                MetadataElement::Section(name, inner) => {
                    proof {
                        lemma_section_view(*name, *inner);
                    }
                    match map.position(name.as_str()) {
                        Some(p) => {
                            proof {
                                assert(map.deep_view()[p as int].0 == name@);
                                assert(has_key(map.deep_view(), name@));
                                lemma_typed_map_fails(views, project, i + 1);
                            }
                            return None;
                        },
                        None => {},
                    }
                    match T::from_section(inner) {
                        None => {
                            proof {
                                lemma_typed_map_fails(views, project, i + 1);
                            }
                            return None;
                        },
                        Some(record) => {
                            let ghost before = map.deep_view();
                            map.0.push((name.clone(), record));
                            proof {
                                assert(map.deep_view() =~= before.push(
                                    (name@, record.deep_view()),
                                ));
                            }
                        },
                    }
                },
            }
            i = i + 1;
        }
        proof {
            assert(views.take(n as int) =~= views);
            lemma_typed_map_distinct(views, project);
        }
        Some(map)
    }
}

} // verus!
