use vstd::prelude::*;

verus! {

/// Item counts keyed by item name, written as a list in which the last entry
/// for a name holds its count.
pub struct Tally {
    pub entries: Vec<(String, u64)>,
}

/// The counts that a list of entries stands for: the last entry for each
/// name wins.
pub open spec fn tally_map(entries: Seq<(String, u64)>) -> Map<Seq<char>, nat>
    decreases entries.len(),
{
    if entries.len() == 0 {
        Map::empty()
    } else {
        tally_map(entries.drop_last()).insert(entries.last().0@, entries.last().1 as nat)
    }
}

/// The count of `n` in `m`, zero where `m` has none.
pub open spec fn cnt(m: Map<Seq<char>, nat>, n: Seq<char>) -> nat {
    if m.dom().contains(n) {
        m[n]
    } else {
        0
    }
}

proof fn lemma_tally_update(s: Seq<(String, u64)>, i: int, k: String, v: u64)
    requires
        0 <= i < s.len(),
        s[i].0@ == k@,
        forall|j: int| i < j < s.len() ==> #[trigger] s[j].0@ != k@,
    ensures
        tally_map(s.update(i, (k, v))) == tally_map(s).insert(k@, v as nat),
    decreases s.len(),
{
    let t = s.update(i, (k, v));
    if i == s.len() - 1 {
        assert(t.drop_last() =~= s.drop_last());
        assert(tally_map(t) =~= tally_map(s).insert(k@, v as nat));
    } else {
        assert(t.drop_last() =~= s.drop_last().update(i, (k, v)));
        lemma_tally_update(s.drop_last(), i, k, v);
        assert(s.last().0@ != k@);
        assert(tally_map(t) =~= tally_map(s).insert(k@, v as nat));
    }
}

proof fn lemma_tally_absent(s: Seq<(String, u64)>, n: Seq<char>)
    requires
        forall|j: int| 0 <= j < s.len() ==> #[trigger] s[j].0@ != n,
    ensures
        !tally_map(s).dom().contains(n),
    decreases s.len(),
{
    if s.len() > 0 {
        lemma_tally_absent(s.drop_last(), n);
    }
}

impl Tally {
    pub open spec fn view(&self) -> Map<Seq<char>, nat> {
        tally_map(self.entries@)
    }

    pub fn new() -> (r: Tally)
        ensures
            r@ == Map::<Seq<char>, nat>::empty(),
    {
        Tally { entries: Vec::new() }
    }

    /// The count of `name`, or `None` where the tally has no entry for it.
    pub fn get(&self, name: &String) -> (r: Option<u64>)
        ensures
            r is None <==> !self@.dom().contains(name@),
            r matches Some(c) ==> self@[name@] == c,
    {
        let mut i: usize = self.entries.len();
        while i > 0
            invariant
                i <= self.entries@.len(),
                forall|j: int| i <= j < self.entries@.len() ==> #[trigger] self.entries@[j].0@ != name@,
            decreases i,
        {
            if self.entries[i - 1].0 == *name {
                proof {
                    let s = self.entries@;
                    assert(s.update(i - 1, s[i - 1]) =~= s);
                    lemma_tally_update(s, i - 1, s[i - 1].0, s[i - 1].1);
                }
                return Some(self.entries[i - 1].1);
            }
            i = i - 1;
        }
        proof {
            lemma_tally_absent(self.entries@, name@);
        }
        None
    }

    /// Sets the count of `name` to `v`.
    pub fn set(&mut self, name: &String, v: u64)
        ensures
            final(self)@ == old(self)@.insert(name@, v as nat),
    {
        let mut i: usize = self.entries.len();
        while i > 0
            invariant
                i <= self.entries@.len(),
                self.entries == old(self).entries,
                forall|j: int| i <= j < self.entries@.len() ==> #[trigger] self.entries@[j].0@ != name@,
            decreases i,
        {
            if self.entries[i - 1].0 == *name {
                let key = self.entries[i - 1].0.clone();
                proof {
                    lemma_tally_update(self.entries@, i - 1, key, v);
                }
                self.entries.set(i - 1, (key, v));
                return;
            }
            i = i - 1;
        }
        self.entries.push((name.clone(), v));
        assert(self.entries@.drop_last() =~= old(self).entries@);
    }

    /// Adds `d` to the count of `name`; `false`, with nothing changed, where
    /// the sum would not fit.
    pub fn add(&mut self, name: &String, d: u64) -> (r: bool)
        ensures
            r == (cnt(old(self)@, name@) + d <= u64::MAX),
            r ==> final(self)@ == old(self)@.insert(name@, (cnt(old(self)@, name@) + d) as nat),
            !r ==> final(self)@ == old(self)@,
    {
        let c = match self.get(name) {
            Some(c) => c,
            None => 0,
        };
        if c > u64::MAX - d {
            return false;
        }
        self.set(name, c + d);
        true
    }
}

/// A way to craft `quantity` of one item from the listed inputs.
pub struct Recipe {
    pub output: String,
    pub quantity: u64,
    pub input: Vec<(String, u64)>,
}

/// The known recipes and the stock of items at hand.
pub struct Recipes {
    pub recipes: Vec<Recipe>,
    pub existing: Tally,
}

/// The running totals of one crafting calculation: stock left, crafts to
/// make, raw items still needed, and stock used.
pub struct RecipeCalc {
    pub existing: Tally,
    pub tocraft: Tally,
    pub needed: Tally,
    pub used: Tally,
}

/// The totals of a calculation: stock left, crafts, needed, used.
pub type CalcModel = (Map<Seq<char>, nat>, Map<Seq<char>, nat>, Map<Seq<char>, nat>, Map<Seq<char>, nat>);

impl RecipeCalc {
    pub open spec fn view(&self) -> CalcModel {
        (self.existing@, self.tocraft@, self.needed@, self.used@)
    }
}

/// The index of the first recipe at or after `i` that makes `name`.
pub open spec fn recipe_from(recipes: Seq<Recipe>, name: Seq<char>, i: int) -> Option<int>
    decreases recipes.len() - i,
{
    if i < 0 || i >= recipes.len() {
        None
    } else if recipes[i].output@ == name {
        Some(i)
    } else {
        recipe_from(recipes, name, i + 1)
    }
}

/// The recipe used for `name`: the first one that makes it.
pub open spec fn recipe_for(recipes: Seq<Recipe>, name: Seq<char>) -> Option<int> {
    recipe_from(recipes, name, 0)
}

proof fn lemma_recipe_from(recipes: Seq<Recipe>, name: Seq<char>, i: int)
    requires
        0 <= i,
    ensures
        recipe_from(recipes, name, i) matches Some(j) ==> i <= j < recipes.len()
            && recipes[j].output@ == name,
    decreases recipes.len() - i,
{
    if i < recipes.len() && recipes[i].output@ != name {
        lemma_recipe_from(recipes, name, i + 1);
    }
}

pub open spec fn bump(m: Map<Seq<char>, nat>, n: Seq<char>, d: int) -> Option<Map<Seq<char>, nat>> {
    if cnt(m, n) + d <= u64::MAX {
        Some(m.insert(n, (cnt(m, n) + d) as nat))
    } else {
        None
    }
}

/// The number of crafts of `per` items each that yield at least `q` items.
pub open spec fn crafts(q: int, per: int) -> int {
    if q % per == 0 {
        q / per
    } else {
        q / per + 1
    }
}

/// Why a calculation stopped.
#[derive(Clone, Copy, Debug, PartialEq, Eq, Structural)]
pub enum RecipeError {
    /// A count would pass `u64::MAX`.
    Overflow,
    /// A recipe makes nothing.
    EmptyRecipe,
    /// Recipes nest deeper than `depth` allows: they form a cycle.
    TooDeep,
}

/// The totals after asking for `quantity` of `name` from state `st`, with
/// recipes nested at most `depth` deep: stock is used first, the rest is
/// crafted by its recipe (leftovers go back to the stock, inputs are asked
/// for in turn) or else counted as needed.
pub open spec fn find_spec(
    recipes: Seq<Recipe>,
    st: CalcModel,
    name: Seq<char>,
    quantity: int,
    depth: nat,
) -> Result<CalcModel, RecipeError>
    decreases depth, 1nat, 0nat,
{
    let (existing, tocraft, needed, used) = st;
    if existing.dom().contains(name) && existing[name] >= quantity {
        match bump(used, name, quantity) {
            Some(u) => Ok((existing.insert(name, (existing[name] - quantity) as nat), tocraft, needed, u)),
            None => Err(RecipeError::Overflow),
        }
    } else {
        let (q, st1) = if existing.dom().contains(name) {
            match bump(used, name, existing[name] as int) {
                Some(u) => (quantity - existing[name], Some((existing.insert(name, 0), tocraft, needed, u))),
                None => (quantity, None),
            }
        } else {
            (quantity, Some(st))
        };
        match st1 {
            None => Err(RecipeError::Overflow),
            Some(st1) => match recipe_for(recipes, name) {
                Some(i) => {
                    if !(0 <= i < recipes.len()) {
                        Err(RecipeError::EmptyRecipe)
                    } else if recipes[i].quantity == 0 {
                        Err(RecipeError::EmptyRecipe)
                    } else if depth == 0 {
                        Err(RecipeError::TooDeep)
                    } else {
                        let per = recipes[i].quantity as int;
                        let n = crafts(q, per);
                        if n * per > u64::MAX {
                            Err(RecipeError::Overflow)
                        } else {
                            match bump(st1.0, name, n * per - q) {
                                None => Err(RecipeError::Overflow),
                                Some(e) => match bump(st1.1, name, n) {
                                    None => Err(RecipeError::Overflow),
                                    Some(t) => find_inputs(
                                        recipes,
                                        (e, t, st1.2, st1.3),
                                        i,
                                        0,
                                        n,
                                        (depth - 1) as nat,
                                    ),
                                },
                            }
                        }
                    }
                },
                None => match bump(st1.2, name, q) {
                    Some(nd) => Ok((st1.0, st1.1, nd, st1.3)),
                    None => Err(RecipeError::Overflow),
                },
            },
        }
    }
}

/// The totals after asking, in order, for inputs `k..` of recipe `i`, each
/// `n` times over, with recipes nested at most `depth` deep.
pub open spec fn find_inputs(
    recipes: Seq<Recipe>,
    st: CalcModel,
    i: int,
    k: int,
    n: int,
    depth: nat,
) -> Result<CalcModel, RecipeError>
    decreases depth, 2nat, (if 0 <= i < recipes.len() {
        recipes[i].input@.len() - k
    } else {
        0
    }) as nat,
{
    if 0 <= i < recipes.len() && 0 <= k < recipes[i].input@.len() {
        let (item, amount) = recipes[i].input@[k];
        if n * amount > u64::MAX {
            Err(RecipeError::Overflow)
        } else {
            match find_spec(recipes, st, item@, n * amount, depth) {
                Err(e) => Err(e),
                Ok(st2) => find_inputs(recipes, st2, i, k + 1, n, depth),
            }
        }
    } else {
        Ok(st)
    }
}

impl Recipes {
    /// The index of the recipe for `name`.
    fn recipe_index(&self, name: &String) -> (r: Option<usize>)
        ensures
            r matches Some(i) ==> recipe_for(self.recipes@, name@) == Some(i as int),
            r is None ==> recipe_for(self.recipes@, name@) is None,
    {
        let mut i: usize = 0;
        while i < self.recipes.len()
            invariant
                i <= self.recipes@.len(),
                recipe_for(self.recipes@, name@) == recipe_from(self.recipes@, name@, i as int),
            decreases self.recipes@.len() - i,
        {
            if self.recipes[i].output == *name {
                return Some(i);
            }
            i = i + 1;
        }
        None
    }

    /// Asks for `quantity` of `name`, updating the running totals of `out`:
    /// stock at hand is used first, then the item is crafted by its recipe,
    /// whose inputs are asked for in turn, or, lacking a recipe, counted as
    /// still needed. Recipes may nest as deep as there are recipes, which
    /// only a cycle exceeds.
    pub fn find(&self, name: &String, out: &mut RecipeCalc, quantity: u64) -> (r: Result<
        (),
        RecipeError,
    >)
        ensures
            r is Ok <==> find_spec(self.recipes@, old(out)@, name@, quantity as int, self.recipes@.len()) is Ok,
            r matches Err(e) ==> find_spec(self.recipes@, old(out)@, name@, quantity as int, self.recipes@.len()) == Err::<CalcModel, RecipeError>(e),
            r is Ok ==> find_spec(self.recipes@, old(out)@, name@, quantity as int, self.recipes@.len()) == Ok::<CalcModel, RecipeError>(final(out)@),
    {
        self.find_within(name, out, quantity, self.recipes.len())
    }

    /// `find` with recipes nested at most `depth` deep.
    pub fn find_within(&self, name: &String, out: &mut RecipeCalc, quantity: u64, depth: usize) -> (r: Result<
        (),
        RecipeError,
    >)
        ensures
            r is Ok <==> find_spec(self.recipes@, old(out)@, name@, quantity as int, depth as nat) is Ok,
            r matches Err(e) ==> find_spec(self.recipes@, old(out)@, name@, quantity as int, depth as nat) == Err::<CalcModel, RecipeError>(e),
            r is Ok ==> find_spec(self.recipes@, old(out)@, name@, quantity as int, depth as nat) == Ok::<CalcModel, RecipeError>(final(out)@),
        decreases depth, 1nat, 0nat,
    {
        let ghost q0 = quantity as int;
        let mut rest = quantity;
        match out.existing.get(name) {
            Some(num) => {
                if num >= rest {
                    if !out.used.add(name, rest) {
                        return Err(RecipeError::Overflow);
                    }
                    out.existing.set(name, num - rest);
                    return Ok(());
                } else {
                    if !out.used.add(name, num) {
                        return Err(RecipeError::Overflow);
                    }
                    out.existing.set(name, 0);
                    rest = rest - num;
                }
            },
            None => {},
        }
        let ghost st1 = out@;
        match self.recipe_index(name) {
            Some(i) => {
                proof {
                    lemma_recipe_from(self.recipes@, name@, 0);
                }
                let per = self.recipes[i].quantity;
                if per == 0 {
                    return Err(RecipeError::EmptyRecipe);
                }
                if depth == 0 {
                    return Err(RecipeError::TooDeep);
                }
                let n: u64 = if rest % per == 0 {
                    rest / per
                } else {
                    assert(rest / per < u64::MAX) by (nonlinear_arith)
                        requires
                            per > 0,
                            rest % per != 0,
                            rest <= u64::MAX,
                    ;
                    rest / per + 1
                };
                assert(n as u128 * per as u128 <= u64::MAX as u128 * u64::MAX as u128) by (nonlinear_arith)
                    requires
                        n <= u64::MAX,
                        per <= u64::MAX,
                ;
                if n as u128 * per as u128 > u64::MAX as u128 {
                    return Err(RecipeError::Overflow);
                }
                assert(n as u128 * per as u128 >= rest) by (nonlinear_arith)
                    requires
                        per > 0,
                        n == crafts(rest as int, per as int),
                ;
                let made: u64 = n * per;
                if !out.existing.add(name, made - rest) {
                    return Err(RecipeError::Overflow);
                }
                if !out.tocraft.add(name, n) {
                    return Err(RecipeError::Overflow);
                }
                let ghost st2 = out@;
                let recipe = &self.recipes[i];
                let mut k: usize = 0;
                while k < recipe.input.len()
                    invariant
                        recipe == self.recipes@[i as int],
                        depth > 0,
                        i < self.recipes@.len(),
                        recipe_for(self.recipes@, name@) == Some(i as int),
                        k <= recipe.input@.len(),
                        q0 == quantity as int,
                        find_spec(self.recipes@, old(out)@, name@, q0, depth as nat) == find_inputs(
                            self.recipes@,
                            st2,
                            i as int,
                            0,
                            n as int,
                            (depth - 1) as nat,
                        ),
                        find_inputs(self.recipes@, st2, i as int, 0, n as int, (depth - 1) as nat)
                            == find_inputs(
                            self.recipes@,
                            out@,
                            i as int,
                            k as int,
                            n as int,
                            (depth - 1) as nat,
                        ),
                    decreases recipe.input@.len() - k,
                {
                    let item = &recipe.input[k].0;
                    let amount = recipe.input[k].1;
                    assert(n as u128 * amount as u128 <= u64::MAX as u128 * u64::MAX as u128) by (nonlinear_arith)
                        requires
                            n <= u64::MAX,
                            amount <= u64::MAX,
                    ;
                    assert((*item, amount) == self.recipes@[i as int].input@[k as int]);
                    let ghost cur = out@;
                    if n as u128 * amount as u128 > u64::MAX as u128 {
                        assert(find_inputs(self.recipes@, cur, i as int, k as int, n as int, (depth - 1) as nat)
                            == Err::<CalcModel, RecipeError>(RecipeError::Overflow));
                        return Err(RecipeError::Overflow);
                    }
                    match self.find_within(item, out, n * amount, depth - 1) {
                        Ok(()) => {
                            assert(find_inputs(self.recipes@, cur, i as int, k as int, n as int, (depth - 1) as nat)
                                == find_inputs(self.recipes@, out@, i as int, k + 1, n as int, (depth - 1) as nat));
                        },
                        Err(e) => {
                            assert(find_inputs(self.recipes@, cur, i as int, k as int, n as int, (depth - 1) as nat)
                                == Err::<CalcModel, RecipeError>(e));
                            return Err(e);
                        },
                    }
                    k = k + 1;
                }
                Ok(())
            },
            None => {
                if !out.needed.add(name, rest) {
                    return Err(RecipeError::Overflow);
                }
                Ok(())
            },
        }
    }
}

/// For each entry of `entries`, in order, the item and how much its count
/// fell from `before` to `now`, where it fell.
pub open spec fn stock_fall(
    entries: Seq<(String, u64)>,
    before: Map<Seq<char>, nat>,
    now: Map<Seq<char>, nat>,
) -> Seq<(Seq<char>, nat)>
    decreases entries.len(),
{
    if entries.len() == 0 {
        seq![]
    } else {
        let prev = stock_fall(entries.drop_last(), before, now);
        let n = entries.last().0@;
        if cnt(before, n) > cnt(now, n) {
            prev.push((n, (cnt(before, n) - cnt(now, n)) as nat))
        } else {
            prev
        }
    }
}

impl RecipeCalc {
    /// The stock used and the crafted leftovers, measured against the stock
    /// `before` the calculation: for each item of the stock in order, how
    /// much its count fell, and how much it rose.
    pub fn stock_changes(&self, before: &Tally) -> (r: (Vec<(String, u64)>, Vec<(String, u64)>))
        ensures
            r.0@.map_values(|e: (String, u64)| (e.0@, e.1 as nat)) == stock_fall(
                self.existing.entries@,
                before@,
                self.existing@,
            ),
            r.1@.map_values(|e: (String, u64)| (e.0@, e.1 as nat)) == stock_fall(
                self.existing.entries@,
                self.existing@,
                before@,
            ),
    {
        let mut used: Vec<(String, u64)> = Vec::new();
        let mut left: Vec<(String, u64)> = Vec::new();
        let entries = &self.existing.entries;
        let mut i: usize = 0;
        while i < entries.len()
            invariant
                i <= entries@.len(),
                entries == &self.existing.entries,
                used@.map_values(|e: (String, u64)| (e.0@, e.1 as nat)) == stock_fall(
                    entries@.subrange(0, i as int),
                    before@,
                    self.existing@,
                ),
                left@.map_values(|e: (String, u64)| (e.0@, e.1 as nat)) == stock_fall(
                    entries@.subrange(0, i as int),
                    self.existing@,
                    before@,
                ),
            decreases entries@.len() - i,
        {
            let name = &entries[i].0;
            let now = match self.existing.get(name) {
                Some(c) => c,
                None => 0,
            };
            let was = match before.get(name) {
                Some(c) => c,
                None => 0,
            };
            let ghost sub = entries@.subrange(0, i + 1);
            assert(sub.drop_last() =~= entries@.subrange(0, i as int));
            assert(sub.last() == entries@[i as int]);
            let ghost u0 = used@;
            let ghost l0 = left@;
            if was > now {
                used.push((name.clone(), was - now));
                assert(used@.map_values(|e: (String, u64)| (e.0@, e.1 as nat)) =~= u0.map_values(
                    |e: (String, u64)| (e.0@, e.1 as nat),
                ).push((name@, (was - now) as nat)));
            }
            if now > was {
                left.push((name.clone(), now - was));
                assert(left@.map_values(|e: (String, u64)| (e.0@, e.1 as nat)) =~= l0.map_values(
                    |e: (String, u64)| (e.0@, e.1 as nat),
                ).push((name@, (now - was) as nat)));
            }
            i = i + 1;
        }
        assert(entries@.subrange(0, i as int) =~= entries@);
        (used, left)
    }
}

} // verus!
