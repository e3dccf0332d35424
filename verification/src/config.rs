//! The project/key registry: a durable mapping of project names to root
//! directories, named hashed API credentials, and the listen settings.
//! Persistence of this state is the caller's concern; every mutation
//! here says exactly how the new state relates to the old one.

use vstd::prelude::*;
use crate::strings::str_eq;

verus! {

/// One named registry entry: a project (the value is its root path) or
/// a credential (the value is the one-way hash of its secret).
pub struct NamedValue {
    pub name: String,
    pub value: String,
}

/// The value stored under `name`, scanning from the front.
pub open spec fn lookup(s: Seq<NamedValue>, name: Seq<char>) -> Option<Seq<char>>
    decreases s.len(),
{
    if s.len() == 0 {
        None
    } else if s[0].name@ == name {
        Some(s[0].value@)
    } else {
        lookup(s.skip(1), name)
    }
}

/// No two entries share a name.
pub open spec fn names_unique(s: Seq<NamedValue>) -> bool {
    forall|i: int, j: int|
        0 <= i < j < s.len() ==> (#[trigger] s[i]).name@ != (#[trigger] s[j]).name@
}

/// An entry nothing before it shadows is what lookup finds.
proof fn lemma_lookup_at(s: Seq<NamedValue>, i: int)
    requires
        0 <= i < s.len(),
        forall|j: int| 0 <= j < i ==> (#[trigger] s[j]).name@ != s[i].name@,
    ensures
        lookup(s, s[i].name@) == Some(s[i].value@),
    decreases i,
{
    if i > 0 {
        assert forall|j: int| 0 <= j < i - 1 implies (#[trigger] s.skip(1)[j]).name@ != s.skip(
            1,
        )[i - 1].name@ by {
            assert(s.skip(1)[j] == s[j + 1]);
        }
        lemma_lookup_at(s.skip(1), i - 1);
        assert(s.skip(1)[i - 1] == s[i]);
    }
}

/// A name no entry carries is not found.
proof fn lemma_lookup_absent(s: Seq<NamedValue>, name: Seq<char>)
    requires
        forall|i: int| 0 <= i < s.len() ==> (#[trigger] s[i]).name@ != name,
    ensures
        lookup(s, name) is None,
    decreases s.len(),
{
    if s.len() > 0 {
        assert forall|i: int| 0 <= i < s.skip(1).len() implies (#[trigger] s.skip(1)[i]).name@
            != name by {
            assert(s.skip(1)[i] == s[i + 1]);
        }
        lemma_lookup_absent(s.skip(1), name);
    }
}

/// Appending an entry leaves every other name's lookup unchanged.
proof fn lemma_lookup_push_other(s: Seq<NamedValue>, e: NamedValue, name: Seq<char>)
    requires
        name != e.name@,
    ensures
        lookup(s.push(e), name) == lookup(s, name),
    decreases s.len(),
{
    if s.len() == 0 {
        assert(s.push(e)[0] == e);
        assert(s.push(e).skip(1) =~= Seq::<NamedValue>::empty());
        assert(lookup(s.push(e), name) is None);
    } else {
        assert(s.push(e)[0] == s[0]);
        if s[0].name@ == name {
            assert(lookup(s.push(e), name) == Some(s[0].value@));
            assert(lookup(s, name) == Some(s[0].value@));
        } else {
            assert(s.push(e).skip(1) =~= s.skip(1).push(e));
            lemma_lookup_push_other(s.skip(1), e, name);
            assert(lookup(s.push(e), name) == lookup(s.skip(1).push(e), name));
            assert(lookup(s, name) == lookup(s.skip(1), name));
        }
    }
}

/// Removing an entry leaves every other name's lookup unchanged.
proof fn lemma_lookup_remove_other(s: Seq<NamedValue>, i: int, name: Seq<char>)
    requires
        0 <= i < s.len(),
        s[i].name@ != name,
    ensures
        lookup(s.remove(i), name) == lookup(s, name),
    decreases s.len(),
{
    if i == 0 {
        assert(s.remove(0) =~= s.skip(1));
    } else {
        assert(s.remove(i)[0] == s[0]);
        if s[0].name@ != name {
            assert(s.remove(i).skip(1) =~= s.skip(1).remove(i - 1));
            assert(s.skip(1)[i - 1] == s[i]);
            lemma_lookup_remove_other(s.skip(1), i - 1, name);
        }
    }
}

/// Finds the position of the entry named `name`.
fn find_entry(s: &Vec<NamedValue>, name: &str) -> (r: Option<usize>)
    ensures
        match r {
            Some(i) => i < s@.len() && s@[i as int].name@ == name@ && forall|j: int|
                0 <= j < i ==> (#[trigger] s@[j]).name@ != name@,
            None => forall|i: int| 0 <= i < s@.len() ==> (#[trigger] s@[i]).name@ != name@,
        },
{
    let mut i: usize = 0;
    while i < s.len()
        invariant
            i <= s@.len(),
            forall|j: int| 0 <= j < i ==> (#[trigger] s@[j]).name@ != name@,
        decreases s@.len() - i,
    {
        if str_eq(s[i].name.as_str(), name) {
            return Some(i);
        }
        i = i + 1;
    }
    None
}

/// Stores `value` under `name` in the entry list: an existing entry of
/// that name is replaced, any other entry is untouched.
fn upsert_entry(s: &mut Vec<NamedValue>, name: String, value: String)
    requires
        names_unique(old(s)@),
    ensures
        names_unique(final(s)@),
        lookup(final(s)@, name@) == Some(value@),
        forall|n: Seq<char>| n != name@ ==> lookup(final(s)@, n) == lookup(old(s)@, n),
{
    let ghost orig = s@;
    if let Some(i) = find_entry(s, name.as_str()) {
        s.remove(i);
        proof {
            assert forall|a: int, b: int|
                0 <= a < b < s@.len() implies (#[trigger] s@[a]).name@ != (#[trigger] s@[b]).name@
                by {
                if a < i {
                    assert(s@[a] == orig[a]);
                } else {
                    assert(s@[a] == orig[a + 1]);
                }
                if b < i {
                    assert(s@[b] == orig[b]);
                } else {
                    assert(s@[b] == orig[b + 1]);
                }
            }
            assert forall|a: int| 0 <= a < s@.len() implies (#[trigger] s@[a]).name@ != name@ by {
                if a < i {
                    assert(s@[a] == orig[a]);
                } else {
                    assert(s@[a] == orig[a + 1]);
                }
            }
            assert forall|n: Seq<char>| n != name@ implies lookup(s@, n) == lookup(orig, n) by {
                lemma_lookup_remove_other(orig, i as int, n);
            }
        }
    }
    let ghost mid = s@;
    let ghost removed_name = name@;
    proof {
        assert(forall|a: int| 0 <= a < mid.len() ==> (#[trigger] mid[a]).name@ != removed_name);
    }
    s.push(NamedValue { name, value });
    proof {
        assert forall|a: int, b: int|
            0 <= a < b < s@.len() implies (#[trigger] s@[a]).name@ != (#[trigger] s@[b]).name@ by {
            if b < s@.len() - 1 {
                assert(s@[a] == mid[a]);
                assert(s@[b] == mid[b]);
            } else {
                assert(s@[a] == mid[a]);
            }
        }
        assert forall|j: int| 0 <= j < s@.len() - 1 implies (#[trigger] s@[j]).name@
            != removed_name by {
            assert(s@[j] == mid[j]);
        }
        lemma_lookup_at(s@, s@.len() - 1);
        assert forall|n: Seq<char>| n != removed_name implies lookup(s@, n) == lookup(
            orig,
            n,
        ) by {
            lemma_lookup_push_other(mid, s@[s@.len() - 1], n);
            assert(s@ =~= mid.push(s@[s@.len() - 1]));
        }
    }
}

/// Removes the entry named `name`, handing back its value; an absent
/// name changes nothing.
fn remove_entry(s: &mut Vec<NamedValue>, name: &str) -> (r: Option<String>)
    requires
        names_unique(old(s)@),
    ensures
        names_unique(final(s)@),
        match r {
            Some(v) => lookup(old(s)@, name@) == Some(v@),
            None => lookup(old(s)@, name@) is None && final(s)@ == old(s)@,
        },
        lookup(final(s)@, name@) is None,
        forall|n: Seq<char>| n != name@ ==> lookup(final(s)@, n) == lookup(old(s)@, n),
{
    let ghost orig = s@;
    match find_entry(s, name) {
        Some(i) => {
            proof {
                lemma_lookup_at(orig, i as int);
            }
            let e = s.remove(i);
            proof {
                assert forall|a: int, b: int|
                    0 <= a < b < s@.len() implies (#[trigger] s@[a]).name@ != (#[trigger] s@[b]).name@
                    by {
                    if a < i {
                        assert(s@[a] == orig[a]);
                    } else {
                        assert(s@[a] == orig[a + 1]);
                    }
                    if b < i {
                        assert(s@[b] == orig[b]);
                    } else {
                        assert(s@[b] == orig[b + 1]);
                    }
                }
                assert forall|a: int| 0 <= a < s@.len() implies (#[trigger] s@[a]).name@ != name@
                    by {
                    if a < i {
                        assert(s@[a] == orig[a]);
                    } else {
                        assert(s@[a] == orig[a + 1]);
                    }
                }
                lemma_lookup_absent(s@, name@);
                assert forall|n: Seq<char>| n != name@ implies lookup(s@, n) == lookup(orig, n) by {
                    lemma_lookup_remove_other(orig, i as int, n);
                }
            }
            Some(e.value)
        },
        None => {
            proof {
                lemma_lookup_absent(orig, name@);
            }
            None
        },
    }
}

/// The registry's durable state: registered projects, the listen
/// settings, and named hashed API credentials.
pub struct Config {
    pub projects: Vec<NamedValue>,
    pub port: u16,
    pub listen_address: String,
    pub api_keys: Vec<NamedValue>,
}

/// Both name spaces of the registry are free of duplicates.
pub open spec fn config_wf(c: Config) -> bool {
    names_unique(c.projects@) && names_unique(c.api_keys@)
}

impl Config {
    /// Registers `path` as the root of project `name`, replacing an
    /// earlier registration of the same name.
    pub fn add_project(&mut self, name: String, path: String)
        requires
            config_wf(*old(self)),
        ensures
            config_wf(*final(self)),
            lookup(final(self).projects@, name@) == Some(path@),
            forall|n: Seq<char>|
                n != name@ ==> lookup(final(self).projects@, n) == lookup(
                    old(self).projects@,
                    n,
                ),
            final(self).api_keys@ == old(self).api_keys@,
            final(self).port == old(self).port,
            final(self).listen_address == old(self).listen_address,
    {
        upsert_entry(&mut self.projects, name, path)
    }

    /// Removes project `name`, handing back its root path; an unknown
    /// name changes nothing and says so.
    pub fn remove_project(&mut self, name: &str) -> (r: Option<String>)
        requires
            config_wf(*old(self)),
        ensures
            config_wf(*final(self)),
            match r {
                Some(p) => lookup(old(self).projects@, name@) == Some(p@),
                None => lookup(old(self).projects@, name@) is None && final(self).projects@ == old(
                    self,
                ).projects@,
            },
            lookup(final(self).projects@, name@) is None,
            forall|n: Seq<char>|
                n != name@ ==> lookup(final(self).projects@, n) == lookup(
                    old(self).projects@,
                    n,
                ),
            final(self).api_keys@ == old(self).api_keys@,
            final(self).port == old(self).port,
            final(self).listen_address == old(self).listen_address,
    {
        remove_entry(&mut self.projects, name)
    }

    /// Stores `hashed_key` as the credential named `name`, replacing an
    /// earlier credential of the same name.
    pub fn add_api_key(&mut self, name: String, hashed_key: String)
        requires
            config_wf(*old(self)),
        ensures
            config_wf(*final(self)),
            lookup(final(self).api_keys@, name@) == Some(hashed_key@),
            forall|n: Seq<char>|
                n != name@ ==> lookup(final(self).api_keys@, n) == lookup(
                    old(self).api_keys@,
                    n,
                ),
            final(self).projects@ == old(self).projects@,
            final(self).port == old(self).port,
            final(self).listen_address == old(self).listen_address,
    {
        upsert_entry(&mut self.api_keys, name, hashed_key)
    }

    /// Removes the credential named `name`; an unknown name changes
    /// nothing.
    pub fn remove_api_key(&mut self, name: &str) -> (r: Option<String>)
        requires
            config_wf(*old(self)),
        ensures
            config_wf(*final(self)),
            match r {
                Some(h) => lookup(old(self).api_keys@, name@) == Some(h@),
                None => lookup(old(self).api_keys@, name@) is None && final(self).api_keys@ == old(
                    self,
                ).api_keys@,
            },
            lookup(final(self).api_keys@, name@) is None,
            forall|n: Seq<char>|
                n != name@ ==> lookup(final(self).api_keys@, n) == lookup(old(self).api_keys@, n),
            final(self).projects@ == old(self).projects@,
            final(self).port == old(self).port,
            final(self).listen_address == old(self).listen_address,
    {
        remove_entry(&mut self.api_keys, name)
    }
}

/// Finds the root path registered under `name`.
pub fn find_project(config: &Config, name: &str) -> (r: Option<String>)
    ensures
        match r {
            Some(p) => lookup(config.projects@, name@) == Some(p@),
            None => lookup(config.projects@, name@) is None,
        },
{
    let ghost whole = config.projects@;
    proof {
        assert(whole.skip(0) =~= whole);
    }
    let mut i: usize = 0;
    while i < config.projects.len()
        invariant
            i <= whole.len(),
            config.projects@ == whole,
            lookup(whole, name@) == lookup(whole.skip(i as int), name@),
        decreases whole.len() - i,
    {
        proof {
            assert(whole.skip(i as int)[0] == whole[i as int]);
            assert(whole.skip(i as int).skip(1) =~= whole.skip(i + 1));
        }
        if str_eq(config.projects[i].name.as_str(), name) {
            return Some(config.projects[i].value.clone());
        }
        i = i + 1;
    }
    None
}

/// With unique names, each entry is exactly what lookup under its name
/// finds.
pub proof fn lemma_entry_found(s: Seq<NamedValue>, i: int)
    requires
        names_unique(s),
        0 <= i < s.len(),
    ensures
        lookup(s, s[i].name@) == Some(s[i].value@),
{
    lemma_lookup_at(s, i);
}

/// A found name is carried by some entry, with the value that was
/// found.
pub proof fn lemma_lookup_some_exists(s: Seq<NamedValue>, name: Seq<char>)
    requires
        lookup(s, name) is Some,
    ensures
        exists|i: int|
            0 <= i < s.len() && (#[trigger] s[i]).name@ == name && s[i].value@ == lookup(
                s,
                name,
            )->0,
    decreases s.len(),
{
    if s.len() > 0 {
        if s[0].name@ == name {
            assert(s[0].name@ == name && s[0].value@ == lookup(s, name)->0);
        } else {
            lemma_lookup_some_exists(s.skip(1), name);
            let i = choose|i: int|
                0 <= i < s.skip(1).len() && (#[trigger] s.skip(1)[i]).name@ == name && s.skip(
                    1,
                )[i].value@ == lookup(s.skip(1), name)->0;
            assert(s[i + 1].name@ == name && s[i + 1].value@ == lookup(s, name)->0);
        }
    }
}

impl Default for Config {
    /// The state used when nothing was persisted yet: loopback address,
    /// port 3030, and no projects or credentials.
    fn default() -> (c: Config)
        ensures
            config_wf(c),
            c.projects@.len() == 0,
            c.api_keys@.len() == 0,
            c.port == 3030,
            c.listen_address@ == "127.0.0.1"@,
    {
        Config {
            projects: Vec::new(),
            port: 3030,
            listen_address: String::from_str("127.0.0.1"),
            api_keys: Vec::new(),
        }
    }
}

} // verus!
