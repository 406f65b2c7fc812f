use crate::expr::{
    dice_reach, flat_sum, flats_reach, lemma_dice_prefix, lemma_dice_take_step, lemma_flats_prefix,
    lemma_flats_reach_nonneg, AdvMode, DiceTerm, Expression,
};
use rand::Rng;
use vstd::prelude::*;

verus! {

#[verifier::external_type_specification]
#[verifier::external_body]
pub struct ExThreadRng(rand::rngs::ThreadRng);

/// Relies on rand::thread_rng: hands out the thread's generator; nothing is
/// promised of it.
pub assume_specification[ rand::thread_rng ]() -> rand::rngs::ThreadRng;

/// Relies on rand::Rng::gen_range over `1..=sides`: a value in that range,
/// which is not empty when `sides >= 1`.
#[verifier::external_body]
fn draw_face(rng: &mut rand::rngs::ThreadRng, sides: u32) -> (r: u32)
    requires
        sides >= 1,
    ensures
        1 <= r <= sides,
{
    rng.gen_range(1..=sides)
}

/// One dice term's outcome: the faces kept and their signed sum.
#[derive(Debug, Clone)]
pub struct RollDetail {
    pub term: DiceTerm,
    pub rolls: Vec<u32>,
    pub subtotal: i32,
}

/// One evaluation of an expression.
#[derive(Debug, Clone)]
pub struct RollResult {
    pub details: Vec<RollDetail>,
    pub flat_total: i32,
    pub total: i32,
}

/// Sum of a sequence of faces.
pub open spec fn sum_faces(s: Seq<u32>) -> int
    decreases s.len(),
{
    if s.len() == 0 {
        0
    } else {
        sum_faces(s.drop_last()) + s.last() as int
    }
}

/// Σ sign · Σ faces over the details, recomputed from their rolls.
pub open spec fn signed_faces(ds: Seq<RollDetail>) -> int
    decreases ds.len(),
{
    if ds.len() == 0 {
        0
    } else {
        signed_faces(ds.drop_last()) + ds.last().term.sign as int * sum_faces(ds.last().rolls@)
    }
}

/// The special rule: advantage or disadvantage applies to a term of exactly one d20.
pub open spec fn lone_d20(t: DiceTerm, adv: AdvMode) -> bool {
    adv != AdvMode::Normal && t.sides == 20 && t.count == 1
}

/// How many draws a term takes: two for a lone d20 under (dis)advantage, else one per die.
pub open spec fn draws_needed(t: DiceTerm, adv: AdvMode) -> nat {
    if lone_d20(t, adv) {
        2
    } else {
        t.count as nat
    }
}

/// Draws suited to a term: as many as it needs, each a face of its dice.
pub open spec fn draws_fit(t: DiceTerm, adv: AdvMode, d: Seq<u32>) -> bool {
    &&& d.len() == draws_needed(t, adv)
    &&& forall|k: int| 0 <= k < d.len() ==> 1 <= #[trigger] d[k] <= t.sides
}

/// The face kept from two draws.
pub open spec fn kept(adv: AdvMode, a: u32, b: u32) -> u32 {
    match adv {
        AdvMode::Advantage => if a >= b { a } else { b },
        AdvMode::Disadvantage => if a <= b { a } else { b },
        AdvMode::Normal => a,
    }
}

/// The faces a term records from its draws.
pub open spec fn faces_from(t: DiceTerm, adv: AdvMode, d: Seq<u32>) -> Seq<u32> {
    if lone_d20(t, adv) {
        seq![kept(adv, d[0], d[1])]
    } else {
        d
    }
}

pub open spec fn draws_view(d: Seq<Vec<u32>>) -> Seq<Seq<u32>> {
    d.map_values(|v: Vec<u32>| v@)
}

/// Draws suited to every dice term of `e`, one sequence per term.
pub open spec fn all_draws_fit(e: &Expression, adv: AdvMode, ds: Seq<Seq<u32>>) -> bool {
    &&& ds.len() == e.dice@.len()
    &&& forall|i: int| 0 <= i < ds.len() ==> draws_fit(e.dice@[i], adv, #[trigger] ds[i])
}

/// `r` is the evaluation of `e` under `adv` from the draws `ds`.
pub open spec fn is_outcome(e: &Expression, adv: AdvMode, ds: Seq<Seq<u32>>, r: RollResult) -> bool {
    &&& r.details@.len() == e.dice@.len()
    &&& forall|i: int| 0 <= i < r.details@.len() ==> {
        let d = #[trigger] r.details@[i];
        &&& d.term == e.dice@[i]
        &&& d.rolls@ == faces_from(e.dice@[i], adv, ds[i])
        &&& d.subtotal == d.term.sign * sum_faces(d.rolls@)
    }
    &&& r.flat_total == flat_sum(e.flats@)
    &&& r.total == r.flat_total + signed_faces(r.details@)
}

/// Picks the higher of two draws under advantage, the lower under disadvantage.
pub fn keep_face(adv: AdvMode, a: u32, b: u32) -> (r: u32)
    ensures
        r == kept(adv, a, b),
        adv == AdvMode::Advantage ==> r == if a >= b { a } else { b },
        adv == AdvMode::Disadvantage ==> r == if a <= b { a } else { b },
{
    match adv {
        AdvMode::Advantage => if a >= b { a } else { b },
        AdvMode::Disadvantage => if a <= b { a } else { b },
        AdvMode::Normal => a,
    }
}

/// In an evaluation, a lone d20 under advantage records the higher of two
/// draws in `[1, 20]`, under disadvantage the lower; every other term records
/// one draw in `[1, sides]` per die, whatever the mode.
pub proof fn lemma_advantage_scope(e: &Expression, adv: AdvMode, ds: Seq<Seq<u32>>, r: RollResult, i: int)
    requires
        all_draws_fit(e, adv, ds),
        is_outcome(e, adv, ds, r),
        0 <= i < e.dice@.len(),
    ensures
        lone_d20(e.dice@[i], adv) ==> {
            let (a, b) = (ds[i][0], ds[i][1]);
            &&& 1 <= a <= 20 && 1 <= b <= 20
            &&& r.details@[i].rolls@.len() == 1
            &&& r.details@[i].subtotal == e.dice@[i].sign * r.details@[i].rolls@[0]
            &&& adv == AdvMode::Advantage ==> r.details@[i].rolls@[0] == if a >= b { a } else { b }
            &&& adv == AdvMode::Disadvantage ==> r.details@[i].rolls@[0] == if a <= b { a } else { b }
        },
        !lone_d20(e.dice@[i], adv) ==> {
            &&& r.details@[i].rolls@ == ds[i]
            &&& r.details@[i].rolls@.len() == e.dice@[i].count
            &&& forall|k: int| 0 <= k < ds[i].len() ==> 1 <= #[trigger] ds[i][k] <= e.dice@[i].sides
        },
{
    assert(draws_fit(e.dice@[i], adv, ds[i]));
    assert(r.details@[i].rolls@ == faces_from(e.dice@[i], adv, ds[i]));
    if lone_d20(e.dice@[i], adv) {
        let rolls = r.details@[i].rolls@;
        assert(rolls.drop_last() =~= Seq::<u32>::empty());
        assert(sum_faces(rolls) == rolls[0]) by {
            reveal_with_fuel(sum_faces, 2);
        }
    }
}

/// Every face recorded by an evaluation lies in `[1, sides]` of its term.
pub proof fn lemma_faces_in_range(e: &Expression, adv: AdvMode, ds: Seq<Seq<u32>>, r: RollResult)
    requires
        all_draws_fit(e, adv, ds),
        is_outcome(e, adv, ds, r),
    ensures
        forall|i: int, k: int|
            0 <= i < r.details@.len() && 0 <= k < r.details@[i].rolls@.len() ==> 1 <= #[trigger] r.details@[i].rolls@[k]
                <= r.details@[i].term.sides,
{
    assert forall|i: int, k: int|
        0 <= i < r.details@.len() && 0 <= k < r.details@[i].rolls@.len() implies 1 <= #[trigger] r.details@[i].rolls@[k]
        <= r.details@[i].term.sides by {
        assert(draws_fit(e.dice@[i], adv, ds[i]));
        assert(r.details@[i].rolls@ == faces_from(e.dice@[i], adv, ds[i]));
    }
}

/// Details that agree term by term give the same recomputed sum.
pub proof fn lemma_signed_faces_agree(a: Seq<RollDetail>, b: Seq<RollDetail>)
    requires
        a.len() == b.len(),
        forall|i: int| 0 <= i < a.len() ==> (#[trigger] a[i]).term == b[i].term && a[i].rolls@ == b[i].rolls@,
    ensures
        signed_faces(a) == signed_faces(b),
    decreases a.len(),
{
    if a.len() > 0 {
        lemma_signed_faces_agree(a.drop_last(), b.drop_last());
        assert(a.last().term == b.last().term);
    }
}

/// Where no term is a lone d20, the mode changes nothing: the same draws give
/// the same faces, subtotals and totals under every mode.
pub proof fn lemma_mode_irrelevant(
    e: &Expression,
    ds: Seq<Seq<u32>>,
    a1: AdvMode,
    a2: AdvMode,
    r1: RollResult,
    r2: RollResult,
)
    requires
        forall|i: int| 0 <= i < e.dice@.len() ==> !((#[trigger] e.dice@[i]).count == 1 && e.dice@[i].sides == 20),
        is_outcome(e, a1, ds, r1),
        is_outcome(e, a2, ds, r2),
    ensures
        r1.details@.len() == r2.details@.len(),
        forall|i: int| 0 <= i < r1.details@.len() ==> {
            &&& (#[trigger] r1.details@[i]).term == r2.details@[i].term
            &&& r1.details@[i].rolls@ == r2.details@[i].rolls@
            &&& r1.details@[i].subtotal == r2.details@[i].subtotal
        },
        r1.flat_total == r2.flat_total,
        r1.total == r2.total,
{
    assert forall|i: int| 0 <= i < r1.details@.len() implies {
        &&& (#[trigger] r1.details@[i]).term == r2.details@[i].term
        &&& r1.details@[i].rolls@ == r2.details@[i].rolls@
        &&& r1.details@[i].subtotal == r2.details@[i].subtotal
    } by {
        let t = e.dice@[i];
        assert(!lone_d20(t, a1) && !lone_d20(t, a2));
        assert(r1.details@[i].rolls@ == faces_from(t, a1, ds[i]));
        assert(r2.details@[i].rolls@ == faces_from(t, a2, ds[i]));
    }
    lemma_signed_faces_agree(r1.details@, r2.details@);
}

impl DiceTerm {
    /// Records this term's faces from its draws, and their signed sum.
    pub fn roll_from(&self, adv: AdvMode, draws: &Vec<u32>) -> (r: RollDetail)
        requires
            self.wf(),
            self.magnitude() <= i32::MAX,
            draws_fit(*self, adv, draws@),
        ensures
            r.term == *self,
            r.rolls@ == faces_from(*self, adv, draws@),
            r.subtotal == self.sign * sum_faces(r.rolls@),
            self.sign == 1 ==> 0 <= r.subtotal <= self.magnitude(),
            self.sign == -1 ==> -self.magnitude() <= r.subtotal <= 0,
    {
        let mut rolls: Vec<u32> = Vec::new();
        let mut sum: u32 = 0;
        if adv != AdvMode::Normal && self.sides == 20 && self.count == 1 {
            let face = keep_face(adv, draws[0], draws[1]);
            rolls.push(face);
            sum = face;
            assert(rolls@.drop_last() =~= Seq::<u32>::empty());
            assert(rolls@ =~= seq![kept(adv, draws@[0], draws@[1])]);
            assert(sum_faces(rolls@) == sum as int) by {
                reveal_with_fuel(sum_faces, 2);
            }
            assert(self.magnitude() == self.sides as int) by (nonlinear_arith)
                requires
                    self.count == 1,
                    self.magnitude() == self.count as int * self.sides as int,
            ;
        } else {
            let ghost cap: int = 0;
            let mut k: usize = 0;
            while k < draws.len()
                invariant
                    self.wf(),
                    self.magnitude() <= i32::MAX,
                    draws_fit(*self, adv, draws@),
                    k <= draws@.len(),
                    draws@.len() == self.count,
                    rolls@ == draws@.take(k as int),
                    sum as int == sum_faces(rolls@),
                    cap == k as int * self.sides as int,
                    sum <= cap,
                decreases draws@.len() - k,
            {
                assert(cap + self.sides <= self.magnitude()) by (nonlinear_arith)
                    requires
                        cap == k as int * self.sides as int,
                        k < self.count,
                        self.magnitude() == self.count as int * self.sides as int,
                ;
                let face = draws[k];
                rolls.push(face);
                assert(rolls@.drop_last() =~= draws@.take(k as int));
                sum = sum + face;
                proof {
                    cap = cap + self.sides;
                    assert(cap == (k + 1) as int * self.sides as int) by (nonlinear_arith)
                        requires
                            cap == k as int * self.sides as int + self.sides as int,
                    ;
                }
                k = k + 1;
                assert(rolls@ =~= draws@.take(k as int));
            }
            assert(rolls@ =~= draws@);
        }
        let subtotal: i32 = if self.sign == -1 { -(sum as i32) } else { sum as i32 };
        assert(subtotal == self.sign * sum_faces(rolls@)) by (nonlinear_arith)
            requires
                self.sign == 1 || self.sign == -1,
                subtotal == (if self.sign == -1 { -(sum as int) } else { sum as int }),
                sum_faces(rolls@) == sum as int,
        ;
        RollDetail { term: *self, rolls, subtotal }
    }
}

impl Expression {
    /// Evaluates the expression from given draws, one sequence per dice term.
    pub fn roll_with(&self, adv: AdvMode, draws: &Vec<Vec<u32>>) -> (r: RollResult)
        requires
            self.wf(),
            self.fits(),
            all_draws_fit(self, adv, draws_view(draws@)),
        ensures
            is_outcome(self, adv, draws_view(draws@), r),
            r.total == r.flat_total + signed_faces(r.details@),
    {
        let ghost ds = draws_view(draws@);
        proof {
            lemma_flats_reach_nonneg(self.flats@, 1);
            lemma_flats_reach_nonneg(self.flats@, -1);
        }
        let mut details: Vec<RollDetail> = Vec::new();
        let mut total: i32 = 0;
        let mut i: usize = 0;
        while i < self.dice.len()
            invariant
                self.wf(),
                self.fits(),
                flats_reach(self.flats@, 1) >= 0,
                flats_reach(self.flats@, -1) >= 0,
                all_draws_fit(self, adv, ds),
                ds == draws_view(draws@),
                i <= self.dice@.len(),
                details@.len() == i,
                forall|j: int| 0 <= j < i ==> {
                    let d = #[trigger] details@[j];
                    &&& d.term == self.dice@[j]
                    &&& d.rolls@ == faces_from(self.dice@[j], adv, ds[j])
                    &&& d.subtotal == d.term.sign * sum_faces(d.rolls@)
                },
                total as int == signed_faces(details@),
                -dice_reach(self.dice@.take(i as int), -1) <= total <= dice_reach(self.dice@.take(i as int), 1),
            decreases self.dice@.len() - i,
        {
            let term = self.dice[i];
            assert(term.wf());
            proof {
                lemma_dice_take_step(self.dice@, i as int);
                lemma_dice_prefix(self.dice@, i as int, 1);
                lemma_dice_prefix(self.dice@, i as int, -1);
                lemma_dice_prefix(self.dice@, i + 1, 1);
                lemma_dice_prefix(self.dice@, i + 1, -1);
            }
            assert(draws@[i as int]@ == ds[i as int]);
            let detail = term.roll_from(adv, &draws[i]);
            let sub = detail.subtotal;
            let ghost before = details@;
            details.push(detail);
            assert(details@.drop_last() =~= before);
            total = total + sub;
            i = i + 1;
        }
        assert(self.dice@.take(i as int) =~= self.dice@);
        let mut flat_total: i32 = 0;
        let mut j: usize = 0;
        while j < self.flats.len()
            invariant
                self.wf(),
                self.fits(),
                -dice_reach(self.dice@, -1) <= total <= dice_reach(self.dice@, 1),
                j <= self.flats@.len(),
                flat_total as int == flat_sum(self.flats@.take(j as int)),
                -flats_reach(self.flats@.take(j as int), -1) <= flat_total <= flats_reach(self.flats@.take(j as int), 1),
            decreases self.flats@.len() - j,
        {
            let m = self.flats[j];
            assert(m.wf());
            assert(self.flats@.take(j + 1).drop_last() =~= self.flats@.take(j as int));
            proof {
                lemma_flats_prefix(self.flats@, j as int, 1);
                lemma_flats_prefix(self.flats@, j as int, -1);
                lemma_flats_prefix(self.flats@, j + 1, 1);
                lemma_flats_prefix(self.flats@, j + 1, -1);
                lemma_dice_prefix(self.dice@, 0, 1);
                lemma_dice_prefix(self.dice@, 0, -1);
            }
            let ghost prev = flat_total as int;
            if m.sign == -1 {
                flat_total = flat_total - m.value;
            } else {
                flat_total = flat_total + m.value;
            }
            assert(flat_total == prev + m.sign * m.value) by (nonlinear_arith)
                requires
                    m.sign == 1 || m.sign == -1,
                    flat_total == (if m.sign == -1 { prev - m.value } else { prev + m.value }),
            ;
            j = j + 1;
        }
        assert(self.flats@.take(j as int) =~= self.flats@);
        proof {
            lemma_dice_prefix(self.dice@, 0, 1);
            lemma_dice_prefix(self.dice@, 0, -1);
        }
        RollResult { details, flat_total, total: total + flat_total }
    }

    /// Evaluates the expression with fresh draws from the thread's generator.
    pub fn roll(&self, adv: AdvMode) -> (r: RollResult)
        requires
            self.wf(),
            self.fits(),
        ensures
            exists|ds: Seq<Seq<u32>>| #[trigger] all_draws_fit(self, adv, ds) && is_outcome(self, adv, ds, r),
            r.total == r.flat_total + signed_faces(r.details@),
            r.details@.len() == self.dice@.len(),
            forall|i: int, k: int|
                0 <= i < r.details@.len() && 0 <= k < r.details@[i].rolls@.len() ==> 1 <= #[trigger] r.details@[i].rolls@[k] <= self.dice@[i].sides,
    {
        let mut rng = rand::thread_rng();
        let mut draws: Vec<Vec<u32>> = Vec::new();
        let mut i: usize = 0;
        while i < self.dice.len()
            invariant
                self.wf(),
                i <= self.dice@.len(),
                draws@.len() == i,
                forall|j: int| 0 <= j < i ==> draws_fit(self.dice@[j], adv, #[trigger] draws@[j]@),
            decreases self.dice@.len() - i,
        {
            let term = self.dice[i];
            assert(term.wf());
            let n: u32 = if adv != AdvMode::Normal && term.sides == 20 && term.count == 1 { 2 } else { term.count };
            let mut d: Vec<u32> = Vec::new();
            let mut k: u32 = 0;
            while k < n
                invariant
                    term.sides >= 1,
                    k <= n,
                    d@.len() == k,
                    forall|m: int| 0 <= m < k ==> 1 <= #[trigger] d@[m] <= term.sides,
                decreases n - k,
            {
                let face = draw_face(&mut rng, term.sides);
                d.push(face);
                k = k + 1;
            }
            draws.push(d);
            i = i + 1;
        }
        let ghost ds = draws_view(draws@);
        assert(all_draws_fit(self, adv, ds)) by {
            assert forall|j: int| 0 <= j < ds.len() implies draws_fit(self.dice@[j], adv, #[trigger] ds[j]) by {
                assert(ds[j] == draws@[j]@);
            }
        }
        let r = self.roll_with(adv, &draws);
        assert forall|i: int, k: int|
            0 <= i < r.details@.len() && 0 <= k < r.details@[i].rolls@.len() implies 1 <= #[trigger] r.details@[i].rolls@[k] <= self.dice@[i].sides by {
            let d = r.details@[i];
            assert(d.term == self.dice@[i]);
            assert(draws_fit(self.dice@[i], adv, ds[i]));
        }
        r
    }
}

} // verus!
