//! Multi-hot selections.

use vstd::prelude::*;

verus! {

/// A selection among `underlying.len()` alternatives: each flag says whether
/// that alternative is selected.
#[derive(Debug, PartialEq, Eq)]
pub struct MultiHotN {
    pub underlying: Vec<bool>,
    pub read_from_mu: bool,
}

/// The positions below `n` whose flag is set, in ascending order.
pub open spec fn selected(flags: Seq<bool>, n: nat) -> Seq<int>
    decreases n,
{
    if n == 0 {
        Seq::empty()
    } else if flags[n - 1] {
        selected(flags, (n - 1) as nat).push(n - 1)
    } else {
        selected(flags, (n - 1) as nat)
    }
}

/// The positions whose flag is set, in ascending order.
pub open spec fn sel_vec(flags: Seq<bool>) -> Seq<int> {
    selected(flags, flags.len())
}

/// The flags that a list of positions sets among `n` alternatives.
pub open spec fn flags_of(positions: Seq<int>, n: nat) -> Seq<bool> {
    Seq::new(n, |i: int| positions.contains(i))
}

/// The machine integers of a list as mathematical integers.
pub open spec fn as_ints(v: Seq<usize>) -> Seq<int> {
    v.map_values(|x: usize| x as int)
}

/// A position is listed exactly when its flag is set.
pub proof fn lemma_selected_contains(flags: Seq<bool>, n: nat, x: int)
    requires
        n <= flags.len(),
    ensures
        selected(flags, n).contains(x) <==> 0 <= x < n && flags[x],
    decreases n,
{
    if n > 0 {
        lemma_selected_contains(flags, (n - 1) as nat, x);
        let shorter = selected(flags, (n - 1) as nat);
        if flags[n - 1] {
            let longer = shorter.push(n - 1);
            assert(longer[longer.len() - 1] == n - 1);
            if shorter.contains(x) {
                let k = choose|k: int| 0 <= k < shorter.len() && shorter[k] == x;
                assert(longer[k] == x);
            }
            if longer.contains(x) {
                let k = choose|k: int| 0 <= k < longer.len() && longer[k] == x;
                if k < shorter.len() {
                    assert(shorter[k] == x);
                }
            }
        }
    }
}

/// There are no more selected positions than alternatives.
pub proof fn lemma_selected_len(flags: Seq<bool>, n: nat)
    requires
        n <= flags.len(),
    ensures
        selected(flags, n).len() <= n,
        forall|k: int|
            0 <= k < selected(flags, n).len() ==> 0 <= #[trigger] selected(flags, n)[k] < n,
    decreases n,
{
    if n > 0 {
        lemma_selected_len(flags, (n - 1) as nat);
    }
}

/// Listing the selected positions and setting them again gives back the flags.
pub proof fn lemma_flags_of_sel_vec(flags: Seq<bool>)
    ensures
        flags_of(sel_vec(flags), flags.len()) == flags,
{
    assert forall|i: int| 0 <= i < flags.len() implies flags_of(
        sel_vec(flags),
        flags.len(),
    )[i] == flags[i] by {
        lemma_selected_contains(flags, flags.len(), i);
    }
    assert(flags_of(sel_vec(flags), flags.len()) =~= flags);
}

/// A type that selects among alternatives.
pub trait SelectAdapter: Sized {
    /// The flags of the alternatives.
    spec fn flags(&self) -> Seq<bool>;

    /// Whether the selection lies in a memory unit.
    spec fn from_mu(&self) -> bool;

    /// The selected positions in ascending order.
    fn to_sel_vec(&self) -> (res: Vec<usize>)
        ensures
            as_ints(res@) == sel_vec(self.flags()),
    ;

    /// The selection of the listed positions among `n` alternatives.
    fn from_sel_vec(positions: Vec<usize>, n: usize, read_from_mu: bool) -> (res: Self)
        requires
            forall|k: int| 0 <= k < positions@.len() ==> #[trigger] positions@[k] < n,
        ensures
            res.flags() == flags_of(as_ints(positions@), n as nat),
            res.from_mu() == read_from_mu,
    ;
}

impl MultiHotN {
    /// A selection with the given flags.
    pub fn new(underlying: Vec<bool>, read_from_mu: bool) -> (res: MultiHotN)
        ensures
            res.underlying@ == underlying@,
            res.read_from_mu == read_from_mu,
    {
        MultiHotN { underlying, read_from_mu }
    }

    /// Whether the selection carries no flags.
    pub fn is_blank(&self) -> (res: bool)
        ensures
            res == (self.underlying@.len() == 0),
    {
        self.underlying.len() == 0
    }
}

impl Clone for MultiHotN {
    fn clone(&self) -> (res: Self)
        ensures
            res.underlying@ == self.underlying@,
            res.read_from_mu == self.read_from_mu,
    {
        let underlying = self.underlying.clone();
        assert(underlying@ =~= self.underlying@);
        MultiHotN { underlying, read_from_mu: self.read_from_mu }
    }
}

impl SelectAdapter for MultiHotN {
    open spec fn flags(&self) -> Seq<bool> {
        self.underlying@
    }

    open spec fn from_mu(&self) -> bool {
        self.read_from_mu
    }

    fn to_sel_vec(&self) -> (res: Vec<usize>) {
        let mut positions: Vec<usize> = Vec::new();
        let mut i: usize = 0;
        assert(as_ints(positions@) =~= selected(self.underlying@, 0));
        while i < self.underlying.len()
            invariant
                i <= self.underlying@.len(),
                as_ints(positions@) == selected(self.underlying@, i as nat),
            decreases self.underlying@.len() - i,
        {
            if self.underlying[i] {
                let ghost before = positions@;
                positions.push(i);
                assert(as_ints(positions@) =~= as_ints(before).push(i as int));
            }
            i = i + 1;
        }
        positions
    }

    fn from_sel_vec(positions: Vec<usize>, n: usize, read_from_mu: bool) -> (res: Self) {
        let mut underlying: Vec<bool> = vec![false; n];
        let mut k: usize = 0;
        assert(underlying@ =~= flags_of(as_ints(positions@.take(0)), n as nat));
        while k < positions.len()
            invariant
                k <= positions@.len(),
                forall|k: int| 0 <= k < positions@.len() ==> #[trigger] positions@[k] < n,
                underlying@.len() == n,
                underlying@ == flags_of(as_ints(positions@.take(k as int)), n as nat),
            decreases positions@.len() - k,
        {
            let ghost before = as_ints(positions@.take(k as int));
            let ghost after = as_ints(positions@.take(k + 1));
            underlying[positions[k]] = true;
            proof {
                assert(after =~= before.push(positions@[k as int] as int));
                assert forall|i: int| 0 <= i < n implies after.contains(i) == (before.contains(i)
                    || i == positions@[k as int]) by {
                    if before.contains(i) {
                        let m = choose|m: int| 0 <= m < before.len() && before[m] == i;
                        assert(after[m] == i);
                    }
                    if after.contains(i) {
                        let m = choose|m: int| 0 <= m < after.len() && after[m] == i;
                        if m < before.len() {
                            assert(before[m] == i);
                        }
                    }
                    assert(after[before.len() as int] == positions@[k as int]);
                }
                assert(underlying@ =~= flags_of(after, n as nat));
            }
            k = k + 1;
        }
        assert(positions@.take(positions@.len() as int) =~= positions@);
        MultiHotN { underlying, read_from_mu }
    }
}

/// The positions that are read off a selection are those whose flag is set,
/// each once and in ascending order; and a selection made of positions has
/// exactly their flags set.
pub proof fn law_positions_are_flags<S: SelectAdapter>(
    sel: S,
    positions: Vec<usize>,
    listed: Vec<usize>,
    n: usize,
    read_from_mu: bool,
    made: S,
)
    requires
        call_ensures(S::to_sel_vec, (&sel,), positions),
        call_ensures(S::from_sel_vec, (listed, n, read_from_mu), made),
    ensures
        forall|k: int|
            0 <= k < positions@.len() ==> #[trigger] positions@[k] < sel.flags().len()
                && sel.flags()[positions@[k] as int],
        forall|i: int, k: int|
            0 <= i < k < positions@.len() ==> #[trigger] positions@[i] < #[trigger] positions@[k],
        forall|p: usize|
            p < sel.flags().len() && #[trigger] sel.flags()[p as int] ==> positions@.contains(p),
        made.flags().len() == n,
        forall|p: usize|
            p < n ==> (#[trigger] made.flags()[p as int] <==> listed@.contains(p)),
        made.from_mu() == read_from_mu,
{
    let flags = sel.flags();
    lemma_selected(flags, flags.len());
    let ints = as_ints(positions@);
    assert forall|k: int| 0 <= k < positions@.len() implies #[trigger] positions@[k]
        < sel.flags().len() && sel.flags()[positions@[k] as int] by {
        assert(ints[k] == positions@[k]);
    }
    assert forall|i: int, k: int| 0 <= i < k < positions@.len() implies #[trigger] positions@[i]
        < #[trigger] positions@[k] by {
        assert(ints[i] == positions@[i] && ints[k] == positions@[k]);
    }
    assert forall|p: usize|
        p < sel.flags().len() && #[trigger] sel.flags()[p as int] implies positions@.contains(
        p,
    ) by {
        let k = choose|k: int| 0 <= k < ints.len() && ints[k] == p;
        assert(selected(flags, flags.len()).contains(p as int));
        assert(positions@[k] == p);
    }
    let given = as_ints(listed@);
    assert forall|p: usize| p < n implies (#[trigger] made.flags()[p as int] <==> listed@.contains(
        p,
    )) by {
        if listed@.contains(p) {
            let k = choose|k: int| 0 <= k < listed@.len() && listed@[k] == p;
            assert(given[k] == p);
        }
        if given.contains(p as int) {
            let k = choose|k: int| 0 <= k < given.len() && given[k] == p;
            assert(listed@[k] == p);
        }
    }
}

/// The positions of the flags that are set, in ascending order.
proof fn lemma_selected(flags: Seq<bool>, n: nat)
    requires
        n <= flags.len(),
    ensures
        forall|k: int|
            0 <= k < selected(flags, n).len() ==> 0 <= #[trigger] selected(flags, n)[k] < n
                && flags[selected(flags, n)[k]],
        forall|i: int, k: int|
            0 <= i < k < selected(flags, n).len() ==> #[trigger] selected(flags, n)[i]
                < #[trigger] selected(flags, n)[k],
        forall|p: int| 0 <= p < n && flags[p] ==> #[trigger] selected(flags, n).contains(p),
    decreases n,
{
    if n > 0 {
        let m = (n - 1) as nat;
        lemma_selected(flags, m);
        let before = selected(flags, m);
        let now = selected(flags, n);
        assert forall|p: int| 0 <= p < n && flags[p] implies #[trigger] now.contains(p) by {
            if p < m {
                assert(before.contains(p));
                let k = choose|k: int| 0 <= k < before.len() && before[k] == p;
                assert(now[k] == p);
            } else {
                assert(now[before.len() as int] == p);
            }
        }
    }
}

} // verus!
