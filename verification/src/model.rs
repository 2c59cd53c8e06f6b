//! Roster records: the input to graph construction.

use vstd::prelude::*;

verus! {

/// One roster record: a player name tagged with the group (team) it
/// belongs to. A name may occur in several records.
#[derive(Clone, Debug)]
pub struct Player {
    pub player_name: String,
    pub team: String,
}

/// Some record in `rs` carries the name `name`.
pub open spec fn has_name(rs: Seq<Player>, name: Seq<char>) -> bool {
    exists|k: int| 0 <= k < rs.len() && rs[k].player_name@ == name
}

/// Some record in `rs` puts the name `name` in the team `team`.
pub open spec fn in_group(rs: Seq<Player>, name: Seq<char>, team: Seq<char>) -> bool {
    exists|k: int|
        0 <= k < rs.len() && rs[k].player_name@ == name && rs[k].team@ == team
}

/// The names `a` and `b` are both put in one team by records of `rs`.
pub open spec fn share_group(rs: Seq<Player>, a: Seq<char>, b: Seq<char>) -> bool {
    exists|k: int, l: int|
        0 <= k < rs.len() && 0 <= l < rs.len()
            && rs[k].player_name@ == a && rs[l].player_name@ == b
            && rs[k].team@ == rs[l].team@
}

/// The distinct names of `rs`, in order of first occurrence.
pub open spec fn first_seen(rs: Seq<Player>) -> Seq<Seq<char>>
    decreases rs.len(),
{
    if rs.len() == 0 {
        Seq::empty()
    } else {
        let prefix = first_seen(rs.drop_last());
        if prefix.contains(rs.last().player_name@) {
            prefix
        } else {
            prefix.push(rs.last().player_name@)
        }
    }
}

/// The views of a sequence of strings.
pub open spec fn views_of(ss: Seq<String>) -> Seq<Seq<char>> {
    ss.map_values(|s: String| s@)
}

/// `first_seen` never repeats a name.
pub proof fn lemma_first_seen_no_dup(rs: Seq<Player>)
    ensures
        forall|i: int, j: int|
            0 <= i < j < first_seen(rs).len() ==> first_seen(rs)[i] != first_seen(rs)[j],
    decreases rs.len(),
{
    if rs.len() > 0 {
        let prefix = first_seen(rs.drop_last());
        lemma_first_seen_no_dup(rs.drop_last());
        if !prefix.contains(rs.last().player_name@) {
            assert forall|i: int, j: int|
                0 <= i < j < first_seen(rs).len() implies first_seen(rs)[i] != first_seen(rs)[j]
            by {
                if j == first_seen(rs).len() - 1 {
                    assert(first_seen(rs)[j] == rs.last().player_name@);
                    assert(prefix[i] == first_seen(rs)[i]);
                    assert(!prefix.contains(rs.last().player_name@));
                }
            }
        }
    }
}

/// `first_seen` holds exactly the names that occur in `rs`.
pub proof fn lemma_first_seen_contains(rs: Seq<Player>, name: Seq<char>)
    ensures
        first_seen(rs).contains(name) <==> has_name(rs, name),
    decreases rs.len(),
{
    if rs.len() == 0 {
        assert(!has_name(rs, name));
    } else {
        let prefix = first_seen(rs.drop_last());
        lemma_first_seen_contains(rs.drop_last(), name);
        if first_seen(rs).contains(name) {
            let idx = choose|idx: int|
                0 <= idx < first_seen(rs).len() && first_seen(rs)[idx] == name;
            if idx < prefix.len() {
                assert(prefix[idx] == name);
                assert(prefix.contains(name));
            } else {
                assert(name == rs.last().player_name@);
                assert(rs[rs.len() - 1].player_name@ == name);
                assert(has_name(rs, name));
            }
        }
        if has_name(rs, name) {
            let k = choose|k: int| 0 <= k < rs.len() && rs[k].player_name@ == name;
            if k < rs.len() - 1 {
                assert(rs.drop_last()[k] == rs[k]);
                assert(has_name(rs.drop_last(), name));
                let idx = choose|idx: int| 0 <= idx < prefix.len() && prefix[idx] == name;
                assert(first_seen(rs)[idx] == name);
                assert(first_seen(rs).contains(name));
            } else {
                assert(rs[k] == rs.last());
                if prefix.contains(name) {
                    let idx = choose|idx: int|
                        0 <= idx < prefix.len() && prefix[idx] == name;
                    assert(first_seen(rs)[idx] == name);
                } else {
                    assert(first_seen(rs).last() == name);
                }
                assert(first_seen(rs).contains(name));
            }
        }
    }
}

/// `first_seen` yields at most one name per record.
pub proof fn lemma_first_seen_len(rs: Seq<Player>)
    ensures
        first_seen(rs).len() <= rs.len(),
    decreases rs.len(),
{
    if rs.len() > 0 {
        lemma_first_seen_len(rs.drop_last());
    }
}

/// Extending the processed prefix by one record extends `in_group` by
/// exactly that record's (name, team) pair.
pub proof fn lemma_in_group_step(rs: Seq<Player>, r: int, name: Seq<char>, team: Seq<char>)
    requires
        0 <= r < rs.len(),
    ensures
        in_group(rs.take(r + 1), name, team)
            <==> (in_group(rs.take(r), name, team)
                || (rs[r].player_name@ == name && rs[r].team@ == team)),
{
    if in_group(rs.take(r + 1), name, team) {
        let s = rs.take(r + 1);
        let w = choose|w: int|
            #![trigger s[w]]
            0 <= w < s.len() && s[w].player_name@ == name && s[w].team@ == team;
        if w < r {
            assert(rs.take(r)[w] == s[w]);
            assert(in_group(rs.take(r), name, team));
        } else {
            assert(s[w] == rs[r]);
        }
    }
    if in_group(rs.take(r), name, team) {
        let s = rs.take(r);
        let w = choose|w: int|
            #![trigger s[w]]
            0 <= w < s.len() && s[w].player_name@ == name && s[w].team@ == team;
        assert(rs.take(r + 1)[w] == s[w]);
        assert(in_group(rs.take(r + 1), name, team));
    }
    if rs[r].player_name@ == name && rs[r].team@ == team {
        assert(rs.take(r + 1)[r] == rs[r]);
        assert(in_group(rs.take(r + 1), name, team));
    }
}

} // verus!
