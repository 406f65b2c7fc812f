use vstd::prelude::*;

verus! {

/// How a lone d20 is rolled: once, or twice keeping the higher or the lower face.
#[derive(Debug, Clone, Copy, PartialEq, Eq, Structural)]
pub enum AdvMode {
    Normal,
    Advantage,
    Disadvantage,
}

/// `count` dice with `sides` faces each, added (`sign == 1`) or subtracted (`sign == -1`).
#[derive(Debug, Clone, Copy, PartialEq, Eq, Structural)]
pub struct DiceTerm {
    pub sign: i32,
    pub count: u32,
    pub sides: u32,
}

/// A constant `value`, added (`sign == 1`) or subtracted (`sign == -1`).
#[derive(Debug, Clone, Copy, PartialEq, Eq, Structural)]
pub struct FlatMod {
    pub sign: i32,
    pub value: i32,
}

/// A parsed expression: its dice terms and its flat modifiers, each in input order.
#[derive(Debug, Clone)]
pub struct Expression {
    pub dice: Vec<DiceTerm>,
    pub flats: Vec<FlatMod>,
}

/// Why an input is not a dice expression.
#[derive(Debug, Clone, Copy, PartialEq, Eq, Structural)]
pub enum ParseError {
    /// Nothing is left once whitespace is removed.
    EmptyExpression,
    /// A `d`-less token starting with `-` is not a number whose magnitude fits in `i32`.
    InvalidFlatModifier,
    /// A dice token has no `d`, or more than one.
    MalformedTerm,
    /// The text before `d` is not a `u32`.
    InvalidCount,
    /// The text after `d` is not a `u32`.
    InvalidSides,
    /// A die count or a number of sides is zero.
    NonPositiveValue,
    /// Only separators were given.
    NothingToRoll,
}

impl DiceTerm {
    pub open spec fn wf(self) -> bool {
        &&& self.sign == 1 || self.sign == -1
        &&& self.count > 0
        &&& self.sides > 0
    }

    /// The largest magnitude this term can contribute to a total.
    pub open spec fn magnitude(self) -> int {
        self.count as int * self.sides as int
    }
}

impl FlatMod {
    pub open spec fn wf(self) -> bool {
        &&& self.sign == 1 || self.sign == -1
        &&& self.value >= 0
    }
}

/// How far the dice terms of sign `s` can move a total: the sum of their magnitudes.
pub open spec fn dice_reach(d: Seq<DiceTerm>, s: int) -> int
    decreases d.len(),
{
    if d.len() == 0 {
        0
    } else {
        dice_reach(d.drop_last(), s) + if d.last().sign as int == s {
            d.last().magnitude()
        } else {
            0
        }
    }
}

/// How far the flat modifiers of sign `s` move a total: the sum of their values.
pub open spec fn flats_reach(f: Seq<FlatMod>, s: int) -> int
    decreases f.len(),
{
    if f.len() == 0 {
        0
    } else {
        flats_reach(f.drop_last(), s) + if f.last().sign as int == s {
            f.last().value as int
        } else {
            0
        }
    }
}

/// The signed sum of a sequence of flat modifiers.
pub open spec fn flat_sum(f: Seq<FlatMod>) -> int
    decreases f.len(),
{
    if f.len() == 0 {
        0
    } else {
        flat_sum(f.drop_last()) + f.last().sign as int * f.last().value as int
    }
}

impl Expression {
    /// Every term well formed, and at least one term.
    pub open spec fn wf(&self) -> bool {
        &&& forall|i: int| 0 <= i < self.dice@.len() ==> (#[trigger] self.dice@[i]).wf()
        &&& forall|i: int| 0 <= i < self.flats@.len() ==> (#[trigger] self.flats@[i]).wf()
        &&& self.dice@.len() > 0 || self.flats@.len() > 0
    }

    /// The largest total this expression can produce.
    pub open spec fn reach_up(&self) -> int {
        dice_reach(self.dice@, 1) + flats_reach(self.flats@, 1)
    }

    /// The magnitude of the smallest total this expression can produce.
    pub open spec fn reach_down(&self) -> int {
        dice_reach(self.dice@, -1) + flats_reach(self.flats@, -1)
    }

    /// Every total, and every partial sum on the way to it, fits in an `i32`.
    pub open spec fn fits(&self) -> bool {
        self.reach_up() <= i32::MAX && self.reach_down() <= i32::MAX
    }

    /// Whether every total of this expression, and every partial sum on the
    /// way to it, fits in an `i32`.
    pub fn fits_i32(&self) -> (r: bool)
        requires
            self.wf(),
        ensures
            r == self.fits(),
    {
        proof {
            lemma_flats_reach_nonneg(self.flats@, 1);
            lemma_flats_reach_nonneg(self.flats@, -1);
        }
        let mut up: u64 = 0;
        let mut down: u64 = 0;
        let mut i: usize = 0;
        while i < self.dice.len()
            invariant
                self.wf(),
                i <= self.dice@.len(),
                up == dice_reach(self.dice@.take(i as int), 1),
                down == dice_reach(self.dice@.take(i as int), -1),
                up <= i32::MAX,
                down <= i32::MAX,
                flats_reach(self.flats@, 1) >= 0,
                flats_reach(self.flats@, -1) >= 0,
            decreases self.dice@.len() - i,
        {
            let t = self.dice[i];
            assert(t.count as u64 * t.sides as u64 <= u32::MAX as u64 * u32::MAX as u64)
                by (nonlinear_arith);
            let m = t.count as u64 * t.sides as u64;
            proof {
                lemma_dice_take_step(self.dice@, i as int);
                lemma_dice_prefix(self.dice@, i + 1, 1);
                lemma_dice_prefix(self.dice@, i + 1, -1);
            }
            if t.sign == 1 {
                if m > i32::MAX as u64 || up + m > i32::MAX as u64 {
                    return false;
                }
                up = up + m;
            } else {
                if m > i32::MAX as u64 || down + m > i32::MAX as u64 {
                    return false;
                }
                down = down + m;
            }
            i = i + 1;
        }
        assert(self.dice@.take(i as int) =~= self.dice@);
        let mut j: usize = 0;
        while j < self.flats.len()
            invariant
                self.wf(),
                j <= self.flats@.len(),
                up == dice_reach(self.dice@, 1) + flats_reach(self.flats@.take(j as int), 1),
                down == dice_reach(self.dice@, -1) + flats_reach(self.flats@.take(j as int), -1),
                up <= i32::MAX,
                down <= i32::MAX,
            decreases self.flats@.len() - j,
        {
            let m = self.flats[j];
            assert(m.wf());
            assert(self.flats@.take(j + 1).drop_last() =~= self.flats@.take(j as int));
            proof {
                lemma_flats_prefix(self.flats@, j + 1, 1);
                lemma_flats_prefix(self.flats@, j + 1, -1);
            }
            if m.sign == 1 {
                if up + m.value as u64 > i32::MAX as u64 {
                    return false;
                }
                up = up + m.value as u64;
            } else {
                if down + m.value as u64 > i32::MAX as u64 {
                    return false;
                }
                down = down + m.value as u64;
            }
            j = j + 1;
        }
        assert(self.flats@.take(j as int) =~= self.flats@);
        true
    }
}

pub proof fn lemma_dice_take_step(d: Seq<DiceTerm>, i: int)
    requires
        0 <= i < d.len(),
    ensures
        dice_reach(d.take(i + 1), 1) == dice_reach(d.take(i), 1) + if d[i].sign == 1 { d[i].magnitude() } else { 0 },
        dice_reach(d.take(i + 1), -1) == dice_reach(d.take(i), -1) + if d[i].sign == -1 { d[i].magnitude() } else { 0 },
        d[i].magnitude() >= 0,
{
    assert(d.take(i + 1).drop_last() =~= d.take(i));
    assert(d[i].magnitude() >= 0) by (nonlinear_arith)
        requires
            d[i].magnitude() == d[i].count as int * d[i].sides as int,
            d[i].count >= 0,
            d[i].sides >= 0,
    ;
}

pub proof fn lemma_dice_reach_nonneg(d: Seq<DiceTerm>, s: int)
    ensures
        dice_reach(d, s) >= 0,
    decreases d.len(),
{
    if d.len() > 0 {
        lemma_dice_reach_nonneg(d.drop_last(), s);
        assert(d.last().magnitude() >= 0) by (nonlinear_arith)
            requires
                d.last().magnitude() == d.last().count as int * d.last().sides as int,
                d.last().count >= 0,
                d.last().sides >= 0,
        ;
    }
}

/// A prefix of the dice reaches no further than all of them.
pub proof fn lemma_dice_prefix(d: Seq<DiceTerm>, i: int, s: int)
    requires
        0 <= i <= d.len(),
    ensures
        0 <= dice_reach(d.take(i), s) <= dice_reach(d, s),
    decreases d.len(),
{
    lemma_dice_reach_nonneg(d.take(i), s);
    if i < d.len() {
        assert(d.drop_last().take(i) =~= d.take(i));
        lemma_dice_prefix(d.drop_last(), i, s);
        assert(d.last().magnitude() >= 0) by (nonlinear_arith)
            requires
                d.last().magnitude() == d.last().count as int * d.last().sides as int,
                d.last().count >= 0,
                d.last().sides >= 0,
        ;
    } else {
        assert(d.take(i) =~= d);
    }
}

/// A prefix of the flat modifiers reaches no further than all of them.
pub proof fn lemma_flats_prefix(f: Seq<FlatMod>, i: int, s: int)
    requires
        0 <= i <= f.len(),
        forall|k: int| 0 <= k < f.len() ==> (#[trigger] f[k]).wf(),
    ensures
        0 <= flats_reach(f.take(i), s) <= flats_reach(f, s),
    decreases f.len(),
{
    lemma_flats_reach_nonneg(f.take(i), s);
    if i < f.len() {
        assert(f.drop_last().take(i) =~= f.take(i));
        assert(f.last().wf());
        lemma_flats_prefix(f.drop_last(), i, s);
    } else {
        assert(f.take(i) =~= f);
    }
}

pub proof fn lemma_flats_reach_nonneg(f: Seq<FlatMod>, s: int)
    requires
        forall|k: int| 0 <= k < f.len() ==> (#[trigger] f[k]).wf(),
    ensures
        flats_reach(f, s) >= 0,
    decreases f.len(),
{
    if f.len() > 0 {
        assert(f.last().wf());
        lemma_flats_reach_nonneg(f.drop_last(), s);
    }
}

} // verus!
