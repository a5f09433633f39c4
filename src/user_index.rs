use vstd::prelude::*;

verus! {

/// The positions, in increasing order, of the records that `user` owns.
#[derive(Clone, Debug)]
pub struct UserIndex {
    pub user: String,
    pub positions: Vec<usize>,
}

/// `ps` lists, in increasing order, exactly the positions in `owners` that hold `user`.
pub open spec fn lists_positions(ps: Seq<usize>, owners: Seq<Seq<char>>, user: Seq<char>) -> bool {
    &&& forall|t: int|
        0 <= t < ps.len() ==> (#[trigger] ps[t]) < owners.len() && owners[ps[t] as int] == user
    &&& forall|a: int, b: int| 0 <= a < b < ps.len() ==> #[trigger] ps[a] < #[trigger] ps[b]
    &&& forall|p: int|
        0 <= p < owners.len() && #[trigger] owners[p] == user ==> exists|t: int|
            0 <= t < ps.len() && ps[t] == p
}

/// `index` holds one entry per user that owns a record, listing that user's positions;
/// `owners` gives the owner of each record, by position.
pub open spec fn indexes(index: Seq<UserIndex>, owners: Seq<Seq<char>>) -> bool {
    &&& forall|i: int, j: int|
        0 <= i < j < index.len() ==> (#[trigger] index[i]).user@ != (#[trigger] index[j]).user@
    &&& forall|i: int|
        0 <= i < index.len() ==> lists_positions(
            (#[trigger] index[i]).positions@,
            owners,
            index[i].user@,
        )
    &&& forall|p: int| 0 <= p < owners.len() ==> has_entry(index, #[trigger] owners[p])
}

/// Some entry of `index` is that of `user`.
pub open spec fn has_entry(index: Seq<UserIndex>, user: Seq<char>) -> bool {
    exists|i: int| 0 <= i < index.len() && index[i].user@ == user
}

/// The entry of `user`, if the index has one.
pub fn find_user(index: &Vec<UserIndex>, user: &String) -> (r: Option<usize>)
    ensures
        match r {
            Some(j) => j < index@.len() && index@[j as int].user@ == user@,
            None => forall|j: int| 0 <= j < index@.len() ==> index@[j].user@ != user@,
        },
{
    let mut i: usize = 0;
    while i < index.len()
        invariant
            i <= index@.len(),
            forall|j: int| 0 <= j < i ==> index@[j].user@ != user@,
        decreases index@.len() - i,
    {
        if index[i].user == *user {
            return Some(i);
        }
        i = i + 1;
    }
    None
}

/// Appends the position of a new record, owned by `user`, to the index.
pub fn record_position(
    index: &mut Vec<UserIndex>,
    user: String,
    pos: usize,
    Ghost(owners): Ghost<Seq<Seq<char>>>,
)
    requires
        indexes(old(index)@, owners),
        pos == owners.len(),
    ensures
        indexes(final(index)@, owners.push(user@)),
{
    let ghost old_index = index@;
    let ghost u = user@;
    let ghost next = owners.push(u);
    match find_user(index, &user) {
        Some(j) => {
            index[j].positions.push(pos);
            proof {
                assert forall|i: int| 0 <= i < index@.len() implies lists_positions(
                    (#[trigger] index@[i]).positions@,
                    next,
                    index@[i].user@,
                ) by {
                    let ps = index@[i].positions@;
                    let ops = old_index[i].positions@;
                    assert(lists_positions(ops, owners, old_index[i].user@));
                    if i == j {
                        assert forall|t: int| 0 <= t < ps.len() implies (#[trigger] ps[t])
                            < next.len() && next[ps[t] as int] == u by {
                            if t < ops.len() {
                                assert(ps[t] == ops[t]);
                            }
                        }
                        assert forall|a: int, b: int| 0 <= a < b < ps.len() implies #[trigger] ps[a]
                            < #[trigger] ps[b] by {
                            assert(ps[a] == ops[a]);
                            if b < ops.len() {
                                assert(ps[b] == ops[b]);
                            }
                        }
                        assert forall|p: int| 0 <= p < next.len() && #[trigger] next[p] == u implies exists|
                            t: int,
                        | 0 <= t < ps.len() && ps[t] == p by {
                            if p == pos {
                                assert(ps[ps.len() - 1] == p);
                            } else {
                                assert(owners[p] == u);
                                let t = choose|t: int| 0 <= t < ops.len() && ops[t] == p;
                                assert(ps[t] == p);
                            }
                        }
                    } else {
                        assert(old_index[i].user@ != old_index[j as int].user@);
                        assert forall|p: int|
                            0 <= p < next.len() && #[trigger] next[p] == index@[i].user@ implies exists|
                            t: int,
                        | 0 <= t < ps.len() && ps[t] == p by {
                            assert(p != pos);
                            assert(owners[p] == next[p]);
                        }
                        assert forall|t: int| 0 <= t < ps.len() implies (#[trigger] ps[t])
                            < next.len() && next[ps[t] as int] == index@[i].user@ by {
                            assert(owners[ps[t] as int] == next[ps[t] as int]);
                        }
                    }
                }
                assert forall|p: int| 0 <= p < next.len() implies has_entry(
                    index@,
                    #[trigger] next[p],
                ) by {
                    if p == pos {
                        assert(index@[j as int].user@ == next[p]);
                    } else {
                        assert(next[p] == owners[p]);
                        let i = choose|i: int|
                            0 <= i < old_index.len() && old_index[i].user@ == owners[p];
                        assert(index@[i].user@ == old_index[i].user@);
                        assert(index@[i].user@ == next[p]);
                    }
                }
                assert forall|a: int, b: int| 0 <= a < b < index@.len() implies (
                #[trigger] index@[a]).user@ != (#[trigger] index@[b]).user@ by {
                    assert(old_index[a].user@ != old_index[b].user@);
                }
            }
        },
        None => {
            let mut positions: Vec<usize> = Vec::new();
            positions.push(pos);
            index.push(UserIndex { user, positions });
            proof {
                let last = old_index.len() as int;
                assert forall|p: int| 0 <= p < owners.len() implies owners[p] != u by {
                    let i = choose|i: int|
                        0 <= i < old_index.len() && old_index[i].user@ == owners[p];
                    assert(old_index[i].user@ != u);
                }
                assert forall|i: int| 0 <= i < index@.len() implies lists_positions(
                    (#[trigger] index@[i]).positions@,
                    next,
                    index@[i].user@,
                ) by {
                    let ps = index@[i].positions@;
                    if i == last {
                        assert forall|p: int| 0 <= p < next.len() && #[trigger] next[p] == u implies exists|
                            t: int,
                        | 0 <= t < ps.len() && ps[t] == p by {
                            if p < pos {
                                assert(owners[p] == next[p]);
                            }
                            assert(ps[0] == p);
                        }
                    } else {
                        let ops = old_index[i].positions@;
                        assert(ps == ops);
                        assert(lists_positions(ops, owners, old_index[i].user@));
                        assert(old_index[i].user@ != u);
                        assert forall|p: int|
                            0 <= p < next.len() && #[trigger] next[p] == index@[i].user@ implies exists|
                            t: int,
                        | 0 <= t < ps.len() && ps[t] == p by {
                            assert(p != pos);
                            assert(owners[p] == next[p]);
                        }
                        assert forall|t: int| 0 <= t < ps.len() implies (#[trigger] ps[t])
                            < next.len() && next[ps[t] as int] == index@[i].user@ by {
                            assert(owners[ps[t] as int] == next[ps[t] as int]);
                        }
                    }
                }
                assert forall|p: int| 0 <= p < next.len() implies has_entry(
                    index@,
                    #[trigger] next[p],
                ) by {
                    if p == pos {
                        assert(index@[last].user@ == next[p]);
                    } else {
                        assert(next[p] == owners[p]);
                        let i = choose|i: int|
                            0 <= i < old_index.len() && old_index[i].user@ == owners[p];
                        assert(index@[i].user@ == old_index[i].user@);
                        assert(index@[i].user@ == next[p]);
                    }
                }
                assert forall|a: int, b: int| 0 <= a < b < index@.len() implies (
                #[trigger] index@[a]).user@ != (#[trigger] index@[b]).user@ by {
                    if b < last {
                        assert(old_index[a].user@ != old_index[b].user@);
                    } else {
                        assert(old_index[a].user@ != u);
                    }
                }
            }
        },
    }
}

} // verus!
