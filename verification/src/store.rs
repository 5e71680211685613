//! The policies that have been registered, each under its name.

use vstd::prelude::*;
use crate::scan::{parse_rules, records, rules_of, RuleInfo, RuleRecord};

verus! {

/// The mapping from name to source text that a list of policies stands
/// for. A later entry replaces an earlier one of the same name.
pub open spec fn policy_map(entries: Seq<(String, String)>) -> Map<Seq<char>, Seq<char>>
    decreases entries.len(),
{
    if entries.len() == 0 {
        Map::empty()
    } else {
        policy_map(entries.drop_last()).insert(entries.last().0@, entries.last().1@)
    }
}

/// Whether no name occurs twice in `entries`.
pub open spec fn distinct_names(entries: Seq<(String, String)>) -> bool {
    forall|i: int, j: int|
        0 <= i < j < entries.len() ==> (#[trigger] entries[i]).0@ != (#[trigger] entries[j]).0@
}

/// Replacing the entry of a name by another of the same name replaces the
/// text that the name maps to, where no name occurs twice.
pub proof fn lemma_policy_map_update(entries: Seq<(String, String)>, k: int, entry: (String, String))
    requires
        distinct_names(entries),
        0 <= k < entries.len(),
        entries[k].0@ == entry.0@,
    ensures
        policy_map(entries.update(k, entry)) == policy_map(entries).insert(entry.0@, entry.1@),
        distinct_names(entries.update(k, entry)),
    decreases entries.len(),
{
    let updated = entries.update(k, entry);
    let front = entries.drop_last();
    if k == entries.len() - 1 {
        assert(updated.drop_last() == front);
        assert(policy_map(updated) == policy_map(entries).insert(entry.0@, entry.1@));
    } else {
        assert(updated.drop_last() == front.update(k, entry));
        assert(distinct_names(front));
        lemma_policy_map_update(front, k, entry);
        assert(entries[k].0@ != entries[entries.len() - 1].0@);
        assert(policy_map(updated) == policy_map(entries).insert(entry.0@, entry.1@));
    }
}

/// The registered policies: the text last put under each name.
pub struct PolicyStore {
    entries: Vec<(String, String)>,
}

impl View for PolicyStore {
    type V = Map<Seq<char>, Seq<char>>;

    closed spec fn view(&self) -> Map<Seq<char>, Seq<char>> {
        policy_map(self.entries@)
    }
}

impl PolicyStore {
    /// No name is held twice.
    #[verifier::type_invariant]
    spec fn wf(&self) -> bool {
        distinct_names(self.entries@)
    }

    /// A store without policies.
    pub fn new() -> (store: PolicyStore)
        ensures
            store@ == Map::<Seq<char>, Seq<char>>::empty(),
    {
        PolicyStore { entries: Vec::new() }
    }

    /// Registers `source` under `name`, in place of what was registered
    /// under that name before.
    pub fn put(&mut self, name: String, source: String)
        ensures
            final(self)@ == old(self)@.insert(name@, source@),
    {
        proof {
            use_type_invariant(&*self);
        }
        // The entries change outside the store, which at no time holds a
        // name twice.
        let mut entries: Vec<(String, String)> = Vec::new();
        core::mem::swap(&mut self.entries, &mut entries);
        let ghost before = entries@;
        let mut k: usize = 0;
        while k < entries.len() && !(entries[k].0 == name)
            invariant
                entries@ == before,
                k <= entries.len(),
                forall|j: int| 0 <= j < k ==> (#[trigger] entries[j]).0@ != name@,
            decreases entries.len() - k,
        {
            k += 1;
        }
        if k < entries.len() {
            proof {
                lemma_policy_map_update(before, k as int, (name, source));
            }
            entries.set(k, (name, source));
        } else {
            entries.push((name, source));
            assert(entries@.drop_last() == before);
        }
        self.entries = entries;
    }

    /// The policies, each name once, with the text registered under it.
    pub fn get_all(&self) -> (entries: &Vec<(String, String)>)
        ensures
            distinct_names(entries@),
            policy_map(entries@) == self@,
    {
        proof {
            use_type_invariant(self);
        }
        &self.entries
    }

    /// The rules of every registered policy, found afresh in the text that
    /// is registered now, each policy once under its name.
    pub fn get_rules(&self) -> (all: Vec<(String, Vec<RuleInfo>)>)
        ensures
            rules_map(all@) == scanned(self@),
            forall|i: int, j: int|
                0 <= i < j < all.len() ==> (#[trigger] all[i]).0@ != (#[trigger] all[j]).0@,
    {
        let all = extract_all(&self.entries);
        proof {
            use_type_invariant(self);
            lemma_rules_map(all@, self.entries@);
        }
        all
    }
}

/// The mapping from name to rules that a list of scanned policies stands
/// for.
pub open spec fn rules_map(all: Seq<(String, Vec<RuleInfo>)>) -> Map<Seq<char>, Seq<RuleRecord>>
    decreases all.len(),
{
    if all.len() == 0 {
        Map::empty()
    } else {
        rules_map(all.drop_last()).insert(all.last().0@, records(all.last().1@))
    }
}

/// The rules of every policy of a mapping from name to source text.
pub open spec fn scanned(policies: Map<Seq<char>, Seq<char>>) -> Map<Seq<char>, Seq<RuleRecord>> {
    Map::new(|name: Seq<char>| policies.dom().contains(name), |name: Seq<char>| rules_of(policies[name]))
}

/// Policies scanned one by one stand for the scanned mapping.
pub proof fn lemma_rules_map(all: Seq<(String, Vec<RuleInfo>)>, entries: Seq<(String, String)>)
    requires
        all.len() == entries.len(),
        forall|k: int|
            0 <= k < all.len() ==> (#[trigger] all[k]).0@ == entries[k].0@ && records(all[k].1@)
                == rules_of(entries[k].1@),
    ensures
        rules_map(all) == scanned(policy_map(entries)),
    decreases all.len(),
{
    if all.len() > 0 {
        lemma_rules_map(all.drop_last(), entries.drop_last());
        let last = all.len() - 1;
        assert(all[last].0@ == entries[last].0@);
    }
    assert(rules_map(all) =~= scanned(policy_map(entries)));
}

/// Scans every policy of `policies`, each for itself: the result holds, in
/// the same order and under the same names, the rules of each text.
pub fn extract_all(policies: &Vec<(String, String)>) -> (all: Vec<(String, Vec<RuleInfo>)>)
    ensures
        all.len() == policies.len(),
        forall|k: int|
            0 <= k < all.len() ==> (#[trigger] all[k]).0@ == policies[k].0@ && records(all[k].1@)
                == rules_of(policies[k].1@),
{
    let mut all: Vec<(String, Vec<RuleInfo>)> = Vec::new();
    let mut k: usize = 0;
    while k < policies.len()
        invariant
            k <= policies.len(),
            all.len() == k,
            forall|j: int|
                0 <= j < k ==> (#[trigger] all[j]).0@ == policies[j].0@ && records(all[j].1@)
                    == rules_of(policies[j].1@),
        decreases policies.len() - k,
    {
        let rules = parse_rules(policies[k].1.as_str());
        all.push((policies[k].0.clone(), rules));
        k += 1;
    }
    all
}

} // verus!
