use crate::expr::{DiceTerm, Expression, FlatMod, ParseError};
use vstd::prelude::*;

verus! {

/// What one `+`-separated token of a normalized expression stands for.
#[derive(Debug, Clone, Copy, PartialEq, Eq, Structural)]
pub enum Token {
    Skip,
    Flat(FlatMod),
    Die(DiceTerm),
    Fail(ParseError),
}

/// Unicode whitespace: the characters for which `char::is_whitespace` holds.
pub open spec fn is_blank(c: char) -> bool {
    let u = c as u32;
    ||| 0x09 <= u <= 0x0D
    ||| u == 0x20
    ||| u == 0x85
    ||| u == 0xA0
    ||| u == 0x1680
    ||| 0x2000 <= u <= 0x200A
    ||| u == 0x2028
    ||| u == 0x2029
    ||| u == 0x202F
    ||| u == 0x205F
    ||| u == 0x3000
}

fn blank(c: char) -> (r: bool)
    ensures
        r == is_blank(c),
{
    let u = c as u32;
    (0x09 <= u && u <= 0x0D) || u == 0x20 || u == 0x85 || u == 0xA0 || u == 0x1680 || (0x2000 <= u
        && u <= 0x200A) || u == 0x2028 || u == 0x2029 || u == 0x202F || u == 0x205F || u == 0x3000
}

/// The input with whitespace removed and each `-` written as `+-`, so that
/// every term, whatever its sign, is preceded by a `+`.
pub open spec fn normalize(s: Seq<char>) -> Seq<char>
    decreases s.len(),
{
    if s.len() == 0 {
        Seq::empty()
    } else {
        let c = s.last();
        normalize(s.drop_last()) + if is_blank(c) {
            Seq::empty()
        } else if c == '-' {
            seq!['+', '-']
        } else {
            seq![c]
        }
    }
}

/// The pieces of `s` between occurrences of `sep`: one more piece than there
/// are separators, empty pieces included.
pub open spec fn split_on(s: Seq<char>, sep: char) -> Seq<Seq<char>>
    decreases s.len(),
{
    if s.len() == 0 {
        seq![Seq::empty()]
    } else {
        let ps = split_on(s.drop_last(), sep);
        if s.last() == sep {
            ps.push(Seq::empty())
        } else {
            ps.update(ps.len() - 1, ps.last().push(s.last()))
        }
    }
}

pub open spec fn is_digit(c: char) -> bool {
    '0' <= c && c <= '9'
}

/// A non-empty run of decimal digits.
pub open spec fn all_digits(s: Seq<char>) -> bool {
    s.len() > 0 && forall|i: int| 0 <= i < s.len() ==> is_digit(#[trigger] s[i])
}

/// The number that a run of decimal digits spells.
pub open spec fn digits_value(s: Seq<char>) -> nat
    decreases s.len(),
{
    if s.len() == 0 {
        0
    } else {
        digits_value(s.drop_last()) * 10 + ((s.last() as u32) - ('0' as u32)) as nat
    }
}

/// Decimal digits that spell a number no larger than `limit`.
pub open spec fn number_within(s: Seq<char>, limit: nat) -> bool {
    all_digits(s) && digits_value(s) <= limit
}

/// A non-empty token without `d` that starts with `-` or is an `i32`.
pub open spec fn looks_flat(t: Seq<char>) -> bool {
    &&& !t.contains('d')
    &&& t[0] == '-' || number_within(t, i32::MAX as nat)
}

pub open spec fn read_flat(t: Seq<char>) -> Token {
    if t[0] == '-' {
        let body = t.subrange(1, t.len() as int);
        if number_within(body, i32::MAX as nat) {
            let v = digits_value(body);
            Token::Flat(FlatMod { sign: if v == 0 { 1i32 } else { -1i32 }, value: v as i32 })
        } else {
            Token::Fail(ParseError::InvalidFlatModifier)
        }
    } else {
        Token::Flat(FlatMod { sign: 1, value: digits_value(t) as i32 })
    }
}

/// A dice token: `[-][count]d<sides>`.
pub open spec fn read_dice(t: Seq<char>) -> Token {
    let neg = t[0] == '-';
    let core = if neg { t.subrange(1, t.len() as int) } else { t };
    let parts = split_on(core, 'd');
    if parts.len() != 2 {
        Token::Fail(ParseError::MalformedTerm)
    } else if parts[0].len() > 0 && !number_within(parts[0], u32::MAX as nat) {
        Token::Fail(ParseError::InvalidCount)
    } else if !number_within(parts[1], u32::MAX as nat) {
        Token::Fail(ParseError::InvalidSides)
    } else {
        let count = if parts[0].len() == 0 { 1 } else { digits_value(parts[0]) };
        let sides = digits_value(parts[1]);
        if count == 0 || sides == 0 {
            Token::Fail(ParseError::NonPositiveValue)
        } else {
            Token::Die(DiceTerm { sign: if neg { -1i32 } else { 1i32 }, count: count as u32, sides: sides as u32 })
        }
    }
}

pub open spec fn read_token(t: Seq<char>) -> Token {
    if t.len() == 0 {
        Token::Skip
    } else if looks_flat(t) {
        read_flat(t)
    } else {
        read_dice(t)
    }
}

/// Reads tokens left to right; the first failing token decides the error.
pub open spec fn read_tokens(ts: Seq<Seq<char>>) -> Result<(Seq<DiceTerm>, Seq<FlatMod>), ParseError>
    decreases ts.len(),
{
    if ts.len() == 0 {
        Ok((Seq::empty(), Seq::empty()))
    } else {
        match read_tokens(ts.drop_last()) {
            Err(e) => Err(e),
            Ok((d, f)) => match read_token(ts.last()) {
                Token::Skip => Ok((d, f)),
                Token::Flat(m) => Ok((d, f.push(m))),
                Token::Die(t) => Ok((d.push(t), f)),
                Token::Fail(e) => Err(e),
            },
        }
    }
}

/// The dice terms and flat modifiers that `s` denotes, or why it denotes none.
pub open spec fn parse_spec(s: Seq<char>) -> Result<(Seq<DiceTerm>, Seq<FlatMod>), ParseError> {
    let n = normalize(s);
    if n.len() == 0 {
        Err(ParseError::EmptyExpression)
    } else {
        match read_tokens(split_on(n, '+')) {
            Err(e) => Err(e),
            Ok((d, f)) => if d.len() == 0 && f.len() == 0 {
                Err(ParseError::NothingToRoll)
            } else {
                Ok((d, f))
            },
        }
    }
}

fn normalize_input(input: &str) -> (r: Vec<char>)
    ensures
        r@ == normalize(input@),
{
    let mut r: Vec<char> = Vec::new();
    for c in it: input.chars()
        invariant
            it.seq() == input@,
            r@ == normalize(input@.take(it.index() as int)),
    {
        let ghost i = it.index() as int;
        assert(input@.take(i + 1).drop_last() =~= input@.take(i));
        if c == '-' {
            r.push('+');
            r.push('-');
        } else if !blank(c) {
            r.push(c);
        }
        assert(r@ =~= normalize(input@.take(i + 1)));
    }
    assert(input@.take(input@.len() as int) =~= input@);
    r
}

pub proof fn lemma_split_nonempty(s: Seq<char>, sep: char)
    ensures
        split_on(s, sep).len() >= 1,
    decreases s.len(),
{
    if s.len() > 0 {
        lemma_split_nonempty(s.drop_last(), sep);
    }
}

fn split_chars(s: &Vec<char>, sep: char) -> (r: Vec<Vec<char>>)
    ensures
        r@.len() == split_on(s@, sep).len(),
        forall|i: int| 0 <= i < r@.len() ==> (#[trigger] r@[i])@ == split_on(s@, sep)[i],
{
    let mut parts: Vec<Vec<char>> = Vec::new();
    let mut cur: Vec<char> = Vec::new();
    let mut i: usize = 0;
    while i < s.len()
        invariant
            i <= s@.len(),
            parts@.len() + 1 == split_on(s@.take(i as int), sep).len(),
            forall|k: int| 0 <= k < parts@.len() ==> (#[trigger] parts@[k])@ == split_on(s@.take(i as int), sep)[k],
            cur@ == split_on(s@.take(i as int), sep).last(),
        decreases s@.len() - i,
    {
        let c = s[i];
        assert(s@.take(i + 1).drop_last() =~= s@.take(i as int));
        proof {
            lemma_split_nonempty(s@.take(i as int), sep);
        }
        if c == sep {
            let done = cur;
            parts.push(done);
            cur = Vec::new();
        } else {
            cur.push(c);
        }
        i = i + 1;
    }
    assert(s@.take(i as int) =~= s@);
    parts.push(cur);
    parts
}

fn contains_char(s: &Vec<char>, c: char) -> (r: bool)
    ensures
        r == s@.contains(c),
{
    let mut i: usize = 0;
    while i < s.len()
        invariant
            i <= s@.len(),
            forall|k: int| 0 <= k < i ==> s@[k] != c,
        decreases s@.len() - i,
    {
        if s[i] == c {
            return true;
        }
        i = i + 1;
    }
    false
}

/// The characters of `s` from index `start` on.
fn suffix(s: &Vec<char>, start: usize) -> (r: Vec<char>)
    requires
        start <= s@.len(),
    ensures
        r@ == s@.subrange(start as int, s@.len() as int),
{
    let mut r: Vec<char> = Vec::new();
    let mut i: usize = start;
    while i < s.len()
        invariant
            start <= i <= s@.len(),
            r@ == s@.subrange(start as int, i as int),
        decreases s@.len() - i,
    {
        r.push(s[i]);
        i = i + 1;
        assert(r@ =~= s@.subrange(start as int, i as int));
    }
    r
}

/// Reads a run of decimal digits, if it spells a number no larger than `limit`.
fn read_number(s: &Vec<char>, limit: u32) -> (r: Option<u32>)
    ensures
        r is Some <==> number_within(s@, limit as nat),
        r is Some ==> r->0 == digits_value(s@),
{
    let mut value: u64 = 0;
    let mut digits = true;
    let mut over = false;
    let mut i: usize = 0;
    while i < s.len()
        invariant
            i <= s@.len(),
            digits == (forall|k: int| 0 <= k < i ==> is_digit(#[trigger] s@[k])),
            value <= limit,
            digits && !over ==> value == digits_value(s@.take(i as int)),
            digits && over ==> digits_value(s@.take(i as int)) > limit,
        decreases s@.len() - i,
    {
        let c = s[i];
        assert(s@.take(i + 1).drop_last() =~= s@.take(i as int));
        if '0' <= c && c <= '9' {
            if !over {
                let next = value * 10 + (c as u32 - '0' as u32) as u64;
                if next > limit as u64 {
                    over = true;
                } else {
                    value = next;
                }
            }
        } else {
            digits = false;
        }
        i = i + 1;
    }
    assert(s@.take(i as int) =~= s@);
    if digits && !over && i > 0 {
        Some(value as u32)
    } else {
        None
    }
}

fn read_flat_token(t: &Vec<char>) -> (r: Token)
    requires
        t@.len() > 0,
        looks_flat(t@),
    ensures
        r == read_flat(t@),
{
    if t[0] == '-' {
        let body = suffix(t, 1);
        match read_number(&body, i32::MAX as u32) {
            Some(v) => {
                let sign: i32 = if v == 0 { 1 } else { -1 };
                Token::Flat(FlatMod { sign, value: v as i32 })
            },
            None => Token::Fail(ParseError::InvalidFlatModifier),
        }
    } else {
        match read_number(t, i32::MAX as u32) {
            Some(v) => Token::Flat(FlatMod { sign: 1, value: v as i32 }),
            None => Token::Fail(ParseError::InvalidFlatModifier),
        }
    }
}

fn read_dice_token(t: &Vec<char>) -> (r: Token)
    requires
        t@.len() > 0,
    ensures
        r == read_dice(t@),
{
    let neg = t[0] == '-';
    let core = if neg { suffix(t, 1) } else { suffix(t, 0) };
    assert(t@.subrange(0, t@.len() as int) =~= t@);
    let parts = split_chars(&core, 'd');
    if parts.len() != 2 {
        return Token::Fail(ParseError::MalformedTerm);
    }
    let count: u32 = if parts[0].len() == 0 {
        1
    } else {
        match read_number(&parts[0], u32::MAX) {
            Some(n) => n,
            None => {
                return Token::Fail(ParseError::InvalidCount);
            },
        }
    };
    let sides: u32 = match read_number(&parts[1], u32::MAX) {
        Some(n) => n,
        None => {
            return Token::Fail(ParseError::InvalidSides);
        },
    };
    if count == 0 || sides == 0 {
        return Token::Fail(ParseError::NonPositiveValue);
    }
    let sign: i32 = if neg { -1 } else { 1 };
    Token::Die(DiceTerm { sign, count, sides })
}

fn read_token_chars(t: &Vec<char>) -> (r: Token)
    ensures
        r == read_token(t@),
{
    if t.len() == 0 {
        return Token::Skip;
    }
    let has_d = contains_char(t, 'd');
    if !has_d && (t[0] == '-' || read_number(t, i32::MAX as u32).is_some()) {
        read_flat_token(t)
    } else {
        read_dice_token(t)
    }
}

/// Once a prefix of the tokens fails, every longer prefix fails the same way.
pub proof fn lemma_failure_persists(ts: Seq<Seq<char>>, i: int)
    requires
        0 <= i <= ts.len(),
        read_tokens(ts.take(i)) is Err,
    ensures
        read_tokens(ts) == read_tokens(ts.take(i)),
    decreases ts.len(),
{
    if i < ts.len() {
        assert(ts.drop_last().take(i) =~= ts.take(i));
        lemma_failure_persists(ts.drop_last(), i);
    } else {
        assert(ts.take(i) =~= ts);
    }
}

impl Expression {
    /// Parses an expression such as `2d6+3`, `3d6+2d8-1` or `d20+5`.
    pub fn parse(input: &str) -> (r: Result<Self, ParseError>)
        ensures
            match (r, parse_spec(input@)) {
                (Ok(e), Ok((d, f))) => e.dice@ == d && e.flats@ == f,
                (Err(e), Err(g)) => e == g,
                _ => false,
            },
            r matches Ok(e) ==> e.wf(),
    {
        let normalized = normalize_input(input);
        if normalized.len() == 0 {
            return Err(ParseError::EmptyExpression);
        }
        let tokens = split_chars(&normalized, '+');
        let ghost ts = split_on(normalized@, '+');
        let mut dice: Vec<DiceTerm> = Vec::new();
        let mut flats: Vec<FlatMod> = Vec::new();
        let mut i: usize = 0;
        while i < tokens.len()
            invariant
                ts == split_on(normalize(input@), '+'),
                normalize(input@).len() > 0,
                tokens@.len() == ts.len(),
                forall|k: int| 0 <= k < tokens@.len() ==> (#[trigger] tokens@[k])@ == ts[k],
                i <= tokens@.len(),
                read_tokens(ts.take(i as int)) == Ok::<_, ParseError>((dice@, flats@)),
                forall|k: int| 0 <= k < dice@.len() ==> (#[trigger] dice@[k]).wf(),
                forall|k: int| 0 <= k < flats@.len() ==> (#[trigger] flats@[k]).wf(),
            decreases tokens@.len() - i,
        {
            assert(ts.take(i + 1).drop_last() =~= ts.take(i as int));
            match read_token_chars(&tokens[i]) {
                Token::Skip => {},
                Token::Flat(m) => {
                    flats.push(m);
                },
                Token::Die(t) => {
                    dice.push(t);
                },
                Token::Fail(e) => {
                    proof {
                        assert(ts.take(i + 1).last() == ts[i as int]);
                        assert(read_tokens(ts.take(i + 1)) == Err::<(Seq<DiceTerm>, Seq<FlatMod>), ParseError>(e));
                        lemma_failure_persists(ts, i + 1);
                    }
                    return Err(e);
                },
            }
            i = i + 1;
        }
        assert(ts.take(i as int) =~= ts);
        if dice.len() == 0 && flats.len() == 0 {
            return Err(ParseError::NothingToRoll);
        }
        Ok(Expression { dice, flats })
    }
}

} // verus!
