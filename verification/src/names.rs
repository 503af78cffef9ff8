//! Name Resolver: id-to-name lookup against the operating system's user and
//! group database, with memoized results and a decimal fallback for ids the
//! database does not know.

use vstd::prelude::*;
use crate::text::{chars_to_string, copy_chars, dec_chars, dec_str};

verus! {

/// Relies on `users::get_user_by_uid`: looks a user id up in the system
/// database and hands back the account name's characters.  The result
/// depends on the machine's database, so nothing is promised of it.
#[verifier::external_body]
fn lookup_user_name(uid: u32) -> (r: Option<Vec<char>>) {
    users::get_user_by_uid(uid).map(|u| u.name().to_string_lossy().chars().collect())
}

/// Relies on `users::get_group_by_gid`: looks a group id up in the system
/// database and hands back the group name's characters.  The result
/// depends on the machine's database, so nothing is promised of it.
#[verifier::external_body]
fn lookup_group_name(gid: u32) -> (r: Option<Vec<char>>) {
    users::get_group_by_gid(gid).map(|g| g.name().to_string_lossy().chars().collect())
}

/// The display name for an id given what the database lookup returned:
/// the database's name where there is one, and the decimal id otherwise.
pub fn name_or_fallback(id: u32, looked_up: Option<Vec<char>>) -> (r: Vec<char>)
    ensures
        looked_up is Some ==> r@ == looked_up->0@,
        looked_up is None ==> r@ == dec_str(id as nat),
{
    match looked_up {
        Option::Some(cs) => cs,
        Option::None => dec_chars(id),
    }
}

/// An association list as a map, later pairs shadowing earlier ones.
pub open spec fn assoc_map(s: Seq<(u32, Vec<char>)>) -> Map<u32, Seq<char>>
    decreases s.len(),
{
    if s.len() == 0 {
        Map::empty()
    } else {
        assoc_map(s.drop_last()).insert(s.last().0, s.last().1@)
    }
}

/// No id occurs twice.
pub open spec fn keys_distinct(s: Seq<(u32, Vec<char>)>) -> bool {
    forall|i: int, j: int| 0 <= i < j < s.len() ==> (#[trigger] s[i]).0 != (#[trigger] s[j]).0
}

proof fn lemma_assoc(s: Seq<(u32, Vec<char>)>)
    requires
        keys_distinct(s),
    ensures
        forall|id: u32| #[trigger] assoc_map(s).contains_key(id) <==> exists|i: int|
            0 <= i < s.len() && (#[trigger] s[i]).0 == id,
        forall|i: int| 0 <= i < s.len() ==> assoc_map(s).contains_key((#[trigger] s[i]).0)
            && assoc_map(s)[s[i].0] == s[i].1@,
    decreases s.len(),
{
    if s.len() > 0 {
        let t = s.drop_last();
        let last = s.last();
        assert(keys_distinct(t)) by {
            assert(forall|i: int, j: int| 0 <= i < j < t.len() ==> (#[trigger] t[i]).0 != (
            #[trigger] t[j]).0) by {
                assert(forall|i: int| 0 <= i < t.len() ==> t[i] == s[i]);
            }
        }
        lemma_assoc(t);
        assert(assoc_map(s) == assoc_map(t).insert(last.0, last.1@));
        assert forall|id: u32| #[trigger] assoc_map(s).contains_key(id) implies exists|i: int|
            0 <= i < s.len() && (#[trigger] s[i]).0 == id by {
            if id == last.0 {
                assert(0 <= s.len() - 1 < s.len() && s[s.len() - 1].0 == id);
            } else {
                assert(assoc_map(t).contains_key(id));
                let i = choose|i: int| 0 <= i < t.len() && (#[trigger] t[i]).0 == id;
                assert(s[i].0 == id);
            }
        }
        assert forall|id: u32| (exists|i: int| 0 <= i < s.len() && (#[trigger] s[i]).0 == id)
            implies #[trigger] assoc_map(s).contains_key(id) by {
            let i = choose|i: int| 0 <= i < s.len() && (#[trigger] s[i]).0 == id;
            if i == s.len() - 1 {
            } else {
                assert(t[i].0 == id);
                assert(assoc_map(t).contains_key(id));
            }
        }
        assert forall|i: int| 0 <= i < s.len() implies assoc_map(s).contains_key(
            (#[trigger] s[i]).0,
        ) && assoc_map(s)[s[i].0] == s[i].1@ by {
            if i == s.len() - 1 {
            } else {
                assert(t[i] == s[i]);
                assert(s[i].0 != last.0);
            }
        }
    }
}

/// An id-to-name cache over the system's user and group database.  Each id
/// is looked up at most once per run; an id the database does not know
/// resolves to its decimal string.
pub struct NameCache {
    users: Vec<(u32, Vec<char>)>,
    groups: Vec<(u32, Vec<char>)>,
}

impl NameCache {
    /// Each id is cached at most once.
    pub closed spec fn wf(&self) -> bool {
        keys_distinct(self.users@) && keys_distinct(self.groups@)
    }

    /// The memoized user names.
    pub closed spec fn umap(&self) -> Map<u32, Seq<char>> {
        assoc_map(self.users@)
    }

    /// The memoized group names.
    pub closed spec fn gmap(&self) -> Map<u32, Seq<char>> {
        assoc_map(self.groups@)
    }

    pub fn new() -> (r: NameCache)
        ensures
            r.wf(),
            r.umap() == Map::<u32, Seq<char>>::empty(),
            r.gmap() == Map::<u32, Seq<char>>::empty(),
    {
        NameCache { users: Vec::new(), groups: Vec::new() }
    }

    fn scan(table: &Vec<(u32, Vec<char>)>, id: u32) -> (r: Option<Vec<char>>)
        requires
            keys_distinct(table@),
        ensures
            r is Some <==> assoc_map(table@).contains_key(id),
            r is Some ==> r->0@ == assoc_map(table@)[id],
    {
        proof {
            lemma_assoc(table@);
        }
        let mut i: usize = 0;
        while i < table.len()
            invariant
                i <= table.len(),
                keys_distinct(table@),
                forall|j: int| 0 <= j < i ==> (#[trigger] table@[j]).0 != id,
            decreases table.len() - i,
        {
            if table[i].0 == id {
                proof {
                    lemma_assoc(table@);
                    assert(assoc_map(table@)[table@[i as int].0] == table@[i as int].1@);
                }
                return Option::Some(copy_chars(&table[i].1));
            }
            i += 1;
        }
        proof {
            lemma_assoc(table@);
            if assoc_map(table@).contains_key(id) {
                let j = choose|j: int| 0 <= j < table@.len() && (#[trigger] table@[j]).0 == id;
                assert(false);
            }
        }
        Option::None
    }

    /// Memoizes `name` for `id` in a table it is not yet in.
    fn record(table: &mut Vec<(u32, Vec<char>)>, id: u32, name: &Vec<char>)
        requires
            keys_distinct(old(table)@),
            !assoc_map(old(table)@).contains_key(id),
        ensures
            keys_distinct(final(table)@),
            assoc_map(final(table)@) == assoc_map(old(table)@).insert(id, name@),
    {
        proof {
            lemma_assoc(table@);
        }
        table.push((id, copy_chars(name)));
        proof {
            assert(table@.drop_last() =~= old(table)@);
            assert(table@.last().0 == id && table@.last().1@ == name@);
            assert forall|i: int, j: int| 0 <= i < j < table@.len() implies (
            #[trigger] table@[i]).0 != (#[trigger] table@[j]).0 by {
                if j == table@.len() - 1 {
                    lemma_assoc(old(table)@);
                    if table@[i].0 == id {
                        assert(old(table)@[i].0 == id);
                        assert(assoc_map(old(table)@).contains_key(id));
                    }
                } else {
                    assert(old(table)@[i] == table@[i] && old(table)@[j] == table@[j]);
                }
            }
        }
    }

    /// The display name of a user id: the cached name if the id was already
    /// resolved (the cache is then untouched), and otherwise the database
    /// name or, where the database has no entry, the decimal id, memoized.
    pub fn resolve_uid(&mut self, uid: u32) -> (r: Vec<char>)
        requires
            old(self).wf(),
        ensures
            final(self).wf(),
            final(self).gmap() == old(self).gmap(),
            final(self).umap().contains_key(uid),
            r@ == final(self).umap()[uid],
            old(self).umap().contains_key(uid) ==> *final(self) == *old(self)
                && r@ == old(self).umap()[uid],
            !old(self).umap().contains_key(uid) ==> final(self).umap() == old(
                self,
            ).umap().insert(uid, r@),
            forall|k: u32| #[trigger] old(self).umap().contains_key(k) ==> final(self).umap().contains_key(k) && final(self).umap()[k] == old(self).umap()[k],
    {
        match Self::scan(&self.users, uid) {
            Option::Some(name) => name,
            Option::None => {
                let looked = lookup_user_name(uid);
                let name = name_or_fallback(uid, looked);
                Self::record(&mut self.users, uid, &name);
                name
            },
        }
    }

    /// The display name of a group id, as for `resolve_uid`.
    pub fn resolve_gid(&mut self, gid: u32) -> (r: Vec<char>)
        requires
            old(self).wf(),
        ensures
            final(self).wf(),
            final(self).umap() == old(self).umap(),
            final(self).gmap().contains_key(gid),
            r@ == final(self).gmap()[gid],
            old(self).gmap().contains_key(gid) ==> *final(self) == *old(self)
                && r@ == old(self).gmap()[gid],
            !old(self).gmap().contains_key(gid) ==> final(self).gmap() == old(
                self,
            ).gmap().insert(gid, r@),
            forall|k: u32| #[trigger] old(self).gmap().contains_key(k) ==> final(self).gmap().contains_key(k) && final(self).gmap()[k] == old(self).gmap()[k],
    {
        match Self::scan(&self.groups, gid) {
            Option::Some(name) => name,
            Option::None => {
                let looked = lookup_group_name(gid);
                let name = name_or_fallback(gid, looked);
                Self::record(&mut self.groups, gid, &name);
                name
            },
        }
    }

    /// The display name of a user id, as a `String`.
    pub fn display_uid(&mut self, uid: u32) -> (r: String)
        requires
            old(self).wf(),
        ensures
            final(self).wf(),
            final(self).gmap() == old(self).gmap(),
            final(self).umap().contains_key(uid),
            r@ == final(self).umap()[uid],
            old(self).umap().contains_key(uid) ==> *final(self) == *old(self),
    {
        let chars = self.resolve_uid(uid);
        chars_to_string(&chars)
    }

    /// The display name of a group id, as a `String`.
    pub fn display_gid(&mut self, gid: u32) -> (r: String)
        requires
            old(self).wf(),
        ensures
            final(self).wf(),
            final(self).umap() == old(self).umap(),
            final(self).gmap().contains_key(gid),
            r@ == final(self).gmap()[gid],
            old(self).gmap().contains_key(gid) ==> *final(self) == *old(self),
    {
        let chars = self.resolve_gid(gid);
        chars_to_string(&chars)
    }
}

} // verus!
