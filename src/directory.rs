use vstd::prelude::*;
use indexmap::IndexMap;
use crate::normalize::{fold, fold_chars};
use crate::text::{plain_ascii, split_words, string_of, to_chars, trim, trim_chars, upper, words};

verus! {

#[verifier::external_type_specification]
#[verifier::external_body]
#[verifier::reject_recursive_types(K)]
#[verifier::reject_recursive_types(V)]
#[verifier::reject_recursive_types(S)]
pub struct ExIndexMap<K, V, S>(IndexMap<K, V, S>);

/// A key of the directory with its person, borrowed from the map.
pub type EntryRef<'a> = (&'a String, &'a Person);

/// What an `IndexMap` holds: its keys (as text) with their values, in the
/// map's order.
pub uninterp spec fn contents(m: IndexMap<String, Person>) -> Seq<(Seq<char>, Person)>;

/// Relies on `IndexMap::new`: the new map is empty.
#[verifier::external_body]
fn map_new() -> (m: IndexMap<String, Person>)
    ensures
        contents(m) == Seq::<(Seq<char>, Person)>::empty(),
{
    IndexMap::new()
}

/// Relies on `IndexMap::len`: the number of entries.
#[verifier::external_body]
fn map_len(m: &IndexMap<String, Person>) -> (r: usize)
    ensures
        r == contents(*m).len(),
{
    m.len()
}

/// Relies on `IndexMap::get_index`: the entry at a position of the order.
#[verifier::external_body]
fn map_get_index<'a>(m: &'a IndexMap<String, Person>, i: usize) -> (r: Option<EntryRef<'a>>)
    ensures
        i < contents(*m).len() ==> r is Some,
        i < contents(*m).len() ==> (r->0).0@ == contents(*m)[i as int].0,
        i < contents(*m).len() ==> *(r->0).1 == contents(*m)[i as int].1,
        i >= contents(*m).len() ==> r is None,
{
    m.get_index(i)
}

/// Relies on `IndexMap::get_key_value`: the entry whose key equals the text,
/// if there is one.
#[verifier::external_body]
fn map_get_key_value<'a>(m: &'a IndexMap<String, Person>, key: &str) -> (r: Option<EntryRef<'a>>)
    ensures
        match r {
            Some((k, p)) => exists|i: int|
                0 <= i < contents(*m).len() && #[trigger] contents(*m)[i].0 == key@ && k@ == key@
                    && *p == contents(*m)[i].1,
            None => forall|i: int| 0 <= i < contents(*m).len() ==> #[trigger] contents(*m)[i].0 != key@,
        },
{
    m.get_key_value(key)
}

/// Relies on `IndexMap::insert`: an equal key keeps its place and gets the
/// new value; a new key goes last.
#[verifier::external_body]
fn map_insert(m: &mut IndexMap<String, Person>, key: String, value: Person)
    ensures
        forall|i: int| 0 <= i < contents(*old(m)).len() && #[trigger] contents(*old(m))[i].0 == key@
            ==> contents(*final(m)) == contents(*old(m)).update(i, (key@, value)),
        (forall|i: int| 0 <= i < contents(*old(m)).len() ==> #[trigger] contents(*old(m))[i].0 != key@)
            ==> contents(*final(m)) == contents(*old(m)).push((key@, value)),
{
    m.insert(key, value);
}

/// One person of the directory, with the folded forms of the name and the
/// surnames that searches compare against.
pub struct Person {
    /// The cohort; zero when unknown.
    pub generation: i8,
    pub given_name: String,
    pub surnames: String,
    /// The first word of the surnames, or nothing.
    pub primary_surname: String,
    pub folded_name: Vec<char>,
    pub folded_surnames: Vec<char>,
}

/// What a person is, apart from the forms derived from it.
pub struct PersonView {
    pub generation: int,
    pub given_name: Seq<char>,
    pub surnames: Seq<char>,
}

/// The first word of a text, or nothing when it has none.
pub open spec fn first_word(s: Seq<char>) -> Seq<char> {
    if words(s).len() > 0 {
        words(s)[0]
    } else {
        Seq::empty()
    }
}

impl View for Person {
    type V = PersonView;

    open spec fn view(&self) -> PersonView {
        PersonView {
            generation: self.generation as int,
            given_name: self.given_name@,
            surnames: self.surnames@,
        }
    }
}

impl Person {
    /// The derived forms agree with the name and the surnames.
    pub open spec fn wf(&self) -> bool {
        &&& self.primary_surname@ == first_word(self.surnames@)
        &&& self.folded_name@ == fold(self.given_name@)
        &&& self.folded_surnames@ == fold(self.surnames@)
    }

    /// A person with the given cohort, name and surnames, each trimmed.
    pub fn new(generation: i8, given_name: &str, surnames: &str) -> (r: Person)
        ensures
            r.wf(),
            r@ == (PersonView {
                generation: generation as int,
                given_name: trim(given_name@),
                surnames: trim(surnames@),
            }),
    {
        let name_chars = trim_chars(to_chars(given_name).as_slice());
        let surname_chars = trim_chars(to_chars(surnames).as_slice());
        let name = string_of(name_chars.as_slice());
        let surnames = string_of(surname_chars.as_slice());
        let parts = split_words(surname_chars.as_slice());
        let primary = if parts.len() > 0 {
            string_of(parts[0].as_slice())
        } else {
            String::new()
        };
        let folded_name = fold_chars(name.as_str());
        let folded_surnames = fold_chars(surnames.as_str());
        Person {
            generation,
            given_name: name,
            surnames,
            primary_surname: primary,
            folded_name,
            folded_surnames,
        }
    }
}

pub open spec fn has_key(es: Seq<(Seq<char>, PersonView)>, k: Seq<char>) -> bool {
    exists|i: int| 0 <= i < es.len() && #[trigger] es[i].0 == k
}

pub open spec fn key_index(es: Seq<(Seq<char>, PersonView)>, k: Seq<char>) -> int {
    choose|i: int| 0 <= i < es.len() && #[trigger] es[i].0 == k
}

/// The person stored under a key.
pub open spec fn lookup(es: Seq<(Seq<char>, PersonView)>, k: Seq<char>) -> Option<PersonView> {
    if has_key(es, k) {
        Some(es[key_index(es, k)].1)
    } else {
        None
    }
}

/// The entries after storing `v` under `k`: an entry already under `k` keeps
/// its place and takes the new person; otherwise the entry goes last.
pub open spec fn put(es: Seq<(Seq<char>, PersonView)>, k: Seq<char>, v: PersonView) -> Seq<(Seq<char>, PersonView)> {
    if has_key(es, k) {
        es.update(key_index(es, k), (k, v))
    } else {
        es.push((k, v))
    }
}

pub open spec fn unique_keys(es: Seq<(Seq<char>, PersonView)>) -> bool {
    forall|i: int, j: int| 0 <= i < es.len() && 0 <= j < es.len() && i != j ==> #[trigger] es[i].0 != #[trigger] es[j].0
}

/// Every key is a folded code: ASCII, with no lower-case letter.
pub open spec fn folded_keys(es: Seq<(Seq<char>, PersonView)>) -> bool {
    forall|i: int| 0 <= i < es.len() ==> plain_ascii(#[trigger] es[i].0) && upper(es[i].0) == es[i].0
}

/// The key under which a code is stored: trimmed and folded.
pub open spec fn code_key(code: Seq<char>) -> Seq<char> {
    fold(trim(code))
}

/// The entries of a directory loaded from rows of code, cohort, name and
/// surnames, in order; a later row with the same key replaces the person.
pub open spec fn loaded(rows: Seq<(Seq<char>, int, Seq<char>, Seq<char>)>) -> Seq<(Seq<char>, PersonView)>
    decreases rows.len(),
{
    if rows.len() == 0 {
        Seq::empty()
    } else {
        let r = rows.last();
        put(
            loaded(rows.drop_last()),
            code_key(r.0),
            PersonView { generation: r.1, given_name: trim(r.2), surnames: trim(r.3) },
        )
    }
}

/// A loaded row as plain values: code, cohort, name, surnames.
pub open spec fn row_view(r: (String, i8, String, String)) -> (Seq<char>, int, Seq<char>, Seq<char>) {
    (r.0@, r.1 as int, r.2@, r.3@)
}

/// The people of the directory, keyed by folded code, in order of loading.
pub struct Directory {
    entries: IndexMap<String, Person>,
}

impl View for Directory {
    type V = Seq<(Seq<char>, PersonView)>;

    closed spec fn view(&self) -> Seq<(Seq<char>, PersonView)> {
        Seq::new(contents(self.entries).len(), |i: int| (contents(self.entries)[i].0, contents(self.entries)[i].1@))
    }
}

impl Directory {
    /// Every stored person is well formed.
    pub closed spec fn people_wf(&self) -> bool {
        forall|i: int| 0 <= i < contents(self.entries).len() ==> (#[trigger] contents(self.entries)[i]).1.wf()
    }

    pub open spec fn wf(&self) -> bool {
        &&& self.people_wf()
        &&& unique_keys(self@)
        &&& folded_keys(self@)
    }

    /// An empty directory.
    pub fn new() -> (d: Directory)
        ensures
            d.wf(),
            d@ == Seq::<(Seq<char>, PersonView)>::empty(),
    {
        let d = Directory { entries: map_new() };
        assert(d@ =~= Seq::<(Seq<char>, PersonView)>::empty());
        d
    }

    /// The number of people.
    pub fn len(&self) -> (r: usize)
        ensures
            r == self@.len(),
    {
        map_len(&self.entries)
    }

    /// The entry at a position of the directory's order.
    pub fn entry(&self, i: usize) -> (r: EntryRef<'_>)
        requires
            self.wf(),
            i < self@.len(),
        ensures
            r.0@ == self@[i as int].0,
            r.1@ == self@[i as int].1,
            r.1.wf(),
    {
        map_get_index(&self.entries, i).unwrap()
    }

    /// The entry stored under exactly this key, if there is one.
    pub fn get_entry(&self, key: &str) -> (r: Option<EntryRef<'_>>)
        requires
            self.wf(),
        ensures
            r is None ==> lookup(self@, key@) is None,
            r is Some ==> lookup(self@, key@) == Some((r->0).1@),
            r is Some ==> (r->0).0@ == key@ && (r->0).1.wf(),
    {
        let r = map_get_key_value(&self.entries, key);
        proof {
            let es = self@;
            match r {
                Some((k, p)) => {
                    let i = choose|i: int|
                        0 <= i < contents(self.entries).len() && #[trigger] contents(self.entries)[i].0 == key@
                            && *p == contents(self.entries)[i].1;
                    assert(es[i].0 == key@);
                    let j = key_index(es, key@);
                    assert(es[j].0 == key@);
                    assert(i == j);
                }
                None => {
                    assert forall|i: int| 0 <= i < es.len() implies #[trigger] es[i].0 != key@ by {
                        assert(contents(self.entries)[i].0 != key@);
                    }
                }
            }
        }
        r
    }

    /// Stores a person under the folded code; a person already stored under
    /// that key is replaced and keeps its place.
    pub fn insert(&mut self, code: &str, generation: i8, given_name: &str, surnames: &str)
        requires
            old(self).wf(),
        ensures
            final(self).wf(),
            final(self)@ == put(
                old(self)@,
                code_key(code@),
                PersonView { generation: generation as int, given_name: trim(given_name@), surnames: trim(surnames@) },
            ),
    {
        let person = Person::new(generation, given_name, surnames);
        let code_chars = trim_chars(to_chars(code).as_slice());
        let code_text = string_of(code_chars.as_slice());
        let key_chars = fold_chars(code_text.as_str());
        let key = string_of(key_chars.as_slice());
        let ghost before = contents(self.entries);
        let ghost p = person;
        let ghost k = key@;
        proof {
            lemma_upper_settles(crate::normalize::transliteration(code_text@));
            assert(upper(k) == k && plain_ascii(k));
        }
        map_insert(&mut self.entries, key, person);
        proof {
            let es = old(self)@;
            assert(es =~= Seq::new(before.len(), |i: int| (before[i].0, before[i].1@)));
            if has_key(es, k) {
                let j = key_index(es, k);
                assert(before[j].0 == k);
                assert(contents(self.entries) == before.update(j, (k, p)));
                assert(self@ =~= es.update(j, (k, p@)));
                assert(forall|i: int| 0 <= i < es.len() ==> #[trigger] self@[i].0 == es[i].0);
            } else {
                assert forall|i: int| 0 <= i < before.len() implies #[trigger] before[i].0 != k by {
                    assert(es[i].0 == before[i].0);
                }
                assert(contents(self.entries) == before.push((k, p)));
                assert(self@ =~= es.push((k, p@)));
                assert(forall|i: int| 0 <= i < es.len() ==> #[trigger] self@[i].0 == es[i].0);
            }
            assert(self.people_wf());
        }
    }
}

impl Directory {
    /// A directory loaded from rows of code, cohort, name and surnames, in
    /// order; a later row whose code folds to the same key replaces the
    /// person and keeps the place.
    pub fn from_rows(rows: &[(String, i8, String, String)]) -> (d: Directory)
        ensures
            d.wf(),
            d@ == loaded(rows@.map_values(|r: (String, i8, String, String)| row_view(r))),
    {
        let ghost vs = rows@.map_values(|r: (String, i8, String, String)| row_view(r));
        let mut d = Directory::new();
        let mut i: usize = 0;
        while i < rows.len()
            invariant
                i <= rows@.len(),
                vs == rows@.map_values(|r: (String, i8, String, String)| row_view(r)),
                d.wf(),
                d@ == loaded(vs.take(i as int)),
            decreases rows.len() - i,
        {
            let row = &rows[i];
            d.insert(row.0.as_str(), row.1, row.2.as_str(), row.3.as_str());
            assert(vs.take(i + 1).drop_last() =~= vs.take(i as int));
            assert(vs.take(i + 1).last() == row_view(*row));
            i = i + 1;
        }
        assert(vs.take(rows@.len() as int) =~= vs);
        d
    }

    /// The person stored under a code, trimmed and folded as when loading.
    pub fn find(&self, code: &str) -> (r: Option<&Person>)
        requires
            self.wf(),
        ensures
            r is None ==> lookup(self@, code_key(code@)) is None,
            r is Some ==> lookup(self@, code_key(code@)) == Some(r->0@),
    {
        let code_chars = trim_chars(to_chars(code).as_slice());
        let code_text = string_of(code_chars.as_slice());
        let key = string_of(fold_chars(code_text.as_str()).as_slice());
        match self.get_entry(key.as_str()) {
            Some((_, p)) => Some(p),
            None => None,
        }
    }
}

proof fn lemma_upper_settles(s: Seq<char>)
    ensures
        upper(upper(s)) == upper(s),
{
    assert(upper(upper(s)) =~= upper(s));
}

} // verus!
