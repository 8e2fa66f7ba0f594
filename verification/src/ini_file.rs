//! The document model: an INI file as named sections of key/value
//! entries, each section optionally holding nested sections.
//!
//! Keys within a section and section names at one nesting level are
//! unique; a later declaration silently replaces an earlier one.  The
//! mathematical image of a document therefore consists of maps.

use vstd::prelude::*;

use crate::text::{valid_key, valid_name, value_token, str_eq};

verus! {

/// Represents a section in an INI file: its key/value entries and its
/// nested sections.
#[derive(Debug)]
pub struct Section {
    pub name: String,
    pub key_values: Vec<(String, String)>,
    pub nested_sections: Vec<Section>,
}

/// Represents an INI file with its top-level sections.
#[derive(Debug)]
pub struct IniFile {
    pub sections: Vec<Section>,
}

/// Mathematical image of a section: its entries and children as maps
/// keyed by entry key and child name.
#[verifier::ext_equal]
pub ghost struct SectionModel {
    pub name: Seq<char>,
    pub entries: Map<Seq<char>, Seq<char>>,
    pub children: Map<Seq<char>, SectionModel>,
}

/// Mathematical image of a document.
#[verifier::ext_equal]
pub ghost struct DocModel {
    pub sections: Map<Seq<char>, SectionModel>,
}

/// No two pairs share a key.
pub open spec fn kv_keys_unique(s: Seq<(String, String)>) -> bool {
    forall|i: int, j: int| 0 <= i < j < s.len() ==> (#[trigger] s[i]).0@ != (#[trigger] s[j]).0@
}

/// No two sections share a name.
pub open spec fn sec_names_unique(s: Seq<Section>) -> bool {
    forall|i: int, j: int|
        0 <= i < j < s.len() ==> (#[trigger] s[i]).name@ != (#[trigger] s[j]).name@
}

/// The entry map of a key/value list; a later pair with the same key
/// wins.
pub open spec fn kv_map(s: Seq<(String, String)>) -> Map<Seq<char>, Seq<char>>
    decreases s.len(),
{
    if s.len() == 0 {
        Map::empty()
    } else {
        kv_map(s.drop_last()).insert(s.last().0@, s.last().1@)
    }
}

/// The section map of a section list, keyed by name; a later section
/// with the same name wins.
pub open spec fn sec_map(s: Seq<Section>) -> Map<Seq<char>, SectionModel>
    decreases s,
{
    if s.len() == 0 {
        Map::empty()
    } else {
        sec_map(s.drop_last()).insert(s.last().name@, s.last().model())
    }
}

impl Section {
    /// Mathematical image of this section.
    pub open spec fn model(self) -> SectionModel
        decreases self,
    {
        SectionModel {
            name: self.name@,
            entries: kv_map(self.key_values@),
            children: sec_map(self.nested_sections@),
        }
    }

    /// Keys and nested-section names are unique, here and in every
    /// section below.
    pub open spec fn keyed(self) -> bool
        decreases self,
    {
        &&& kv_keys_unique(self.key_values@)
        &&& sec_names_unique(self.nested_sections@)
        &&& forall|j: int|
            0 <= j < self.nested_sections@.len() ==> (#[trigger] self.nested_sections@[j]).keyed()
    }

    /// The full invariant of the model: unique keys and names, and every
    /// name, key and value is a token the grammar captures.
    pub open spec fn wf(self) -> bool
        decreases self,
    {
        &&& valid_name(self.name@)
        &&& kv_keys_unique(self.key_values@)
        &&& forall|j: int|
            0 <= j < self.key_values@.len() ==> valid_key(
                (#[trigger] self.key_values@[j]).0@,
            ) && value_token(self.key_values@[j].1@)
        &&& sec_names_unique(self.nested_sections@)
        &&& forall|j: int|
            0 <= j < self.nested_sections@.len() ==> (#[trigger] self.nested_sections@[j]).wf()
    }
}

impl IniFile {
    /// Mathematical image of this document.
    pub open spec fn model(self) -> DocModel {
        DocModel { sections: sec_map(self.sections@) }
    }

    /// Section names are unique and every section keeps its keys and
    /// names unique.
    pub open spec fn keyed(self) -> bool {
        &&& sec_names_unique(self.sections@)
        &&& forall|j: int| 0 <= j < self.sections@.len() ==> (#[trigger] self.sections@[j]).keyed()
    }

    /// The full invariant of the document model.
    pub open spec fn wf(self) -> bool {
        &&& sec_names_unique(self.sections@)
        &&& forall|j: int| 0 <= j < self.sections@.len() ==> (#[trigger] self.sections@[j]).wf()
    }
}

pub proof fn lemma_kv_map_contains(s: Seq<(String, String)>, k: Seq<char>)
    ensures
        kv_map(s).contains_key(k) <==> exists|i: int| 0 <= i < s.len() && (#[trigger] s[i]).0@ == k,
    decreases s.len(),
{
    if s.len() > 0 {
        let d = s.drop_last();
        lemma_kv_map_contains(d, k);
        if s.last().0@ == k {
            assert(s[s.len() - 1].0@ == k);
        } else {
            if kv_map(d).contains_key(k) {
                let i = choose|i: int| 0 <= i < d.len() && (#[trigger] d[i]).0@ == k;
                assert(s[i].0@ == k);
            }
            if exists|i: int| 0 <= i < s.len() && (#[trigger] s[i]).0@ == k {
                let i = choose|i: int| 0 <= i < s.len() && (#[trigger] s[i]).0@ == k;
                assert(i < s.len() - 1);
                assert(d[i].0@ == k);
            }
        }
    }
}

pub proof fn lemma_kv_map_at(s: Seq<(String, String)>, i: int)
    requires
        kv_keys_unique(s),
        0 <= i < s.len(),
    ensures
        kv_map(s).contains_key(s[i].0@),
        kv_map(s)[s[i].0@] == s[i].1@,
    decreases s.len(),
{
    if i < s.len() - 1 {
        let d = s.drop_last();
        assert(kv_keys_unique(d));
        lemma_kv_map_at(d, i);
        assert(s[i].0@ != s.last().0@);
    }
}

pub proof fn lemma_kv_map_update(s: Seq<(String, String)>, i: int, p: (String, String))
    requires
        kv_keys_unique(s),
        0 <= i < s.len(),
        s[i].0@ == p.0@,
    ensures
        kv_map(s.update(i, p)) == kv_map(s).insert(p.0@, p.1@),
        kv_keys_unique(s.update(i, p)),
    decreases s.len(),
{
    let s2 = s.update(i, p);
    assert forall|a: int, b: int| 0 <= a < b < s2.len() implies (#[trigger] s2[a]).0@ != (
    #[trigger] s2[b]).0@ by {
        assert(s[a].0@ != s[b].0@);
    }
    if i == s.len() - 1 {
        assert(s2.drop_last() =~= s.drop_last());
        assert(kv_map(s).insert(p.0@, p.1@) =~~= kv_map(s.drop_last()).insert(p.0@, p.1@));
    } else {
        let d = s.drop_last();
        assert(kv_keys_unique(d));
        assert(s2.drop_last() =~= d.update(i, p));
        lemma_kv_map_update(d, i, p);
        assert(s2.last() == s.last());
        assert(s[i].0@ != s.last().0@);
        assert(kv_map(d).insert(p.0@, p.1@).insert(s.last().0@, s.last().1@) =~~= kv_map(
            d,
        ).insert(s.last().0@, s.last().1@).insert(p.0@, p.1@));
    }
}

pub proof fn lemma_sec_map_contains(s: Seq<Section>, k: Seq<char>)
    ensures
        sec_map(s).contains_key(k) <==> exists|i: int|
            0 <= i < s.len() && (#[trigger] s[i]).name@ == k,
    decreases s.len(),
{
    if s.len() > 0 {
        let d = s.drop_last();
        lemma_sec_map_contains(d, k);
        if s.last().name@ == k {
            assert(s[s.len() - 1].name@ == k);
        } else {
            if sec_map(d).contains_key(k) {
                let i = choose|i: int| 0 <= i < d.len() && (#[trigger] d[i]).name@ == k;
                assert(s[i].name@ == k);
            }
            if exists|i: int| 0 <= i < s.len() && (#[trigger] s[i]).name@ == k {
                let i = choose|i: int| 0 <= i < s.len() && (#[trigger] s[i]).name@ == k;
                assert(i < s.len() - 1);
                assert(d[i].name@ == k);
            }
        }
    }
}

pub proof fn lemma_sec_map_at(s: Seq<Section>, i: int)
    requires
        sec_names_unique(s),
        0 <= i < s.len(),
    ensures
        sec_map(s).contains_key(s[i].name@),
        sec_map(s)[s[i].name@] == s[i].model(),
    decreases s.len(),
{
    if i < s.len() - 1 {
        let d = s.drop_last();
        assert(sec_names_unique(d));
        lemma_sec_map_at(d, i);
        assert(s[i].name@ != s.last().name@);
    }
}

pub proof fn lemma_sec_map_update(s: Seq<Section>, i: int, x: Section)
    requires
        sec_names_unique(s),
        0 <= i < s.len(),
        s[i].name@ == x.name@,
    ensures
        sec_map(s.update(i, x)) == sec_map(s).insert(x.name@, x.model()),
        sec_names_unique(s.update(i, x)),
    decreases s.len(),
{
    let s2 = s.update(i, x);
    assert forall|a: int, b: int| 0 <= a < b < s2.len() implies (#[trigger] s2[a]).name@ != (
    #[trigger] s2[b]).name@ by {
        assert(s[a].name@ != s[b].name@);
    }
    if i == s.len() - 1 {
        assert(s2.drop_last() =~= s.drop_last());
        assert(sec_map(s).insert(x.name@, x.model()) =~~= sec_map(s.drop_last()).insert(
            x.name@,
            x.model(),
        ));
    } else {
        let d = s.drop_last();
        assert(sec_names_unique(d));
        assert(s2.drop_last() =~= d.update(i, x));
        lemma_sec_map_update(d, i, x);
        assert(s2.last() == s.last());
        assert(s[i].name@ != s.last().name@);
        assert(sec_map(d).insert(x.name@, x.model()).insert(s.last().name@, s.last().model())
            =~~= sec_map(d).insert(s.last().name@, s.last().model()).insert(x.name@, x.model()));
    }
}

/// Insert `sec` into `list`, replacing the section of the same name if
/// one is present: last write wins.
pub fn upsert_section(list: &mut Vec<Section>, sec: Section)
    requires
        sec_names_unique(old(list)@),
    ensures
        sec_map(final(list)@) == sec_map(old(list)@).insert(sec.name@, sec.model()),
        sec_names_unique(final(list)@),
        final(list)@.len() > 0,
        (forall|j: int| 0 <= j < old(list)@.len() ==> (#[trigger] old(list)@[j]).wf()) && sec.wf()
            ==> forall|j: int| 0 <= j < final(list)@.len() ==> (#[trigger] final(list)@[j]).wf(),
        (forall|j: int| 0 <= j < old(list)@.len() ==> (#[trigger] old(list)@[j]).keyed())
            && sec.keyed() ==> forall|j: int| 0 <= j < final(list)@.len() ==> (
        #[trigger] final(list)@[j]).keyed(),
{
    let ghost s0 = old(list)@;
    let ghost secg = sec;
    let n = list.len();
    let mut i: usize = 0;
    while i < n
        invariant
            i <= n,
            n == list@.len(),
            list@ == s0,
            s0 == old(list)@,
            sec_names_unique(s0),
            secg == sec,
            forall|j: int| 0 <= j < i ==> (#[trigger] s0[j]).name@ != secg.name@,
        decreases n - i,
    {
        if str_eq(list[i].name.as_str(), sec.name.as_str()) {
            proof {
                lemma_sec_map_update(s0, i as int, secg);
            }
            list.set(i, sec);
            return ;
        }
        i = i + 1;
    }
    list.push(sec);
    proof {
        assert(list@.drop_last() =~= s0);
        assert(forall|j: int| 0 <= j < s0.len() ==> (#[trigger] s0[j]).name@ != secg.name@);
    }
}

/// Insert the pair `(key, value)` into `kvs`, replacing the pair with
/// the same key if one is present: last write wins.
pub fn upsert_kv(kvs: &mut Vec<(String, String)>, key: String, value: String)
    requires
        kv_keys_unique(old(kvs)@),
    ensures
        kv_map(final(kvs)@) == kv_map(old(kvs)@).insert(key@, value@),
        kv_keys_unique(final(kvs)@),
        (forall|j: int|
            0 <= j < old(kvs)@.len() ==> valid_key((#[trigger] old(kvs)@[j]).0@) && value_token(
                old(kvs)@[j].1@,
            )) && valid_key(key@) && value_token(value@) ==> forall|j: int|
            0 <= j < final(kvs)@.len() ==> valid_key((#[trigger] final(kvs)@[j]).0@)
                && value_token(final(kvs)@[j].1@),
{
    let ghost s0 = old(kvs)@;
    let ghost keyg = key@;
    let ghost valueg = value@;
    let n = kvs.len();
    let mut i: usize = 0;
    while i < n
        invariant
            i <= n,
            n == kvs@.len(),
            kvs@ == s0,
            s0 == old(kvs)@,
            kv_keys_unique(s0),
            keyg == key@,
            valueg == value@,
            forall|j: int| 0 <= j < i ==> (#[trigger] s0[j]).0@ != keyg,
        decreases n - i,
    {
        if str_eq(kvs[i].0.as_str(), key.as_str()) {
            let p = (key, value);
            proof {
                lemma_kv_map_update(s0, i as int, p);
            }
            kvs.set(i, p);
            return ;
        }
        i = i + 1;
    }
    kvs.push((key, value));
    proof {
        assert(kvs@.drop_last() =~= s0);
    }
}

impl IniFile {
    /// The top-level section called `name`, if any.
    pub fn get_section<'a>(&'a self, name: &str) -> (r: Option<&'a Section>)
        requires
            sec_names_unique(self.sections@),
        ensures
            match r {
                Some(sec) => self.model().sections.contains_key(name@) && sec.model()
                    == self.model().sections[name@] && sec.name@ == name@,
                None => !self.model().sections.contains_key(name@),
            },
    {
        let n = self.sections.len();
        let mut i: usize = 0;
        while i < n
            invariant
                i <= n,
                n == self.sections@.len(),
                sec_names_unique(self.sections@),
                forall|j: int| 0 <= j < i ==> (#[trigger] self.sections@[j]).name@ != name@,
            decreases n - i,
        {
            if str_eq(self.sections[i].name.as_str(), name) {
                proof {
                    lemma_sec_map_at(self.sections@, i as int);
                }
                return Some(&self.sections[i]);
            }
            i = i + 1;
        }
        proof {
            lemma_sec_map_contains(self.sections@, name@);
        }
        None
    }
}

impl Section {
    /// The value stored under `key`, if any.
    pub fn get_value<'a>(&'a self, key: &str) -> (r: Option<&'a String>)
        requires
            kv_keys_unique(self.key_values@),
        ensures
            match r {
                Some(v) => self.model().entries.contains_key(key@) && v@
                    == self.model().entries[key@],
                None => !self.model().entries.contains_key(key@),
            },
    {
        let n = self.key_values.len();
        let mut i: usize = 0;
        while i < n
            invariant
                i <= n,
                n == self.key_values@.len(),
                kv_keys_unique(self.key_values@),
                forall|j: int| 0 <= j < i ==> (#[trigger] self.key_values@[j]).0@ != key@,
            decreases n - i,
        {
            if str_eq(self.key_values[i].0.as_str(), key) {
                proof {
                    lemma_kv_map_at(self.key_values@, i as int);
                }
                return Some(&self.key_values[i].1);
            }
            i = i + 1;
        }
        proof {
            lemma_kv_map_contains(self.key_values@, key@);
        }
        None
    }

    /// The nested section called `name`, if any.
    pub fn get_child<'a>(&'a self, name: &str) -> (r: Option<&'a Section>)
        requires
            sec_names_unique(self.nested_sections@),
        ensures
            match r {
                Some(sec) => self.model().children.contains_key(name@) && sec.model()
                    == self.model().children[name@] && sec.name@ == name@,
                None => !self.model().children.contains_key(name@),
            },
    {
        let n = self.nested_sections.len();
        let mut i: usize = 0;
        while i < n
            invariant
                i <= n,
                n == self.nested_sections@.len(),
                sec_names_unique(self.nested_sections@),
                forall|j: int| 0 <= j < i ==> (#[trigger] self.nested_sections@[j]).name@ != name@,
            decreases n - i,
        {
            if str_eq(self.nested_sections[i].name.as_str(), name) {
                proof {
                    lemma_sec_map_at(self.nested_sections@, i as int);
                }
                return Some(&self.nested_sections[i]);
            }
            i = i + 1;
        }
        proof {
            lemma_sec_map_contains(self.nested_sections@, name@);
        }
        None
    }
}

} // verus!
