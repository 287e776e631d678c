use vstd::prelude::*;

verus! {

/// The white space of path data: space, tab, line feed, form feed and carriage return.
pub open spec fn is_ascii_space(b: u8) -> bool {
    b == 0x20 || b == 0x09 || b == 0x0A || b == 0x0C || b == 0x0D
}

/// What separates the parts of path data: white space and commas.
pub open spec fn is_separator(b: u8) -> bool {
    is_ascii_space(b) || b == 0x2Cu8
}

pub open spec fn is_digit(b: u8) -> bool {
    0x30 <= b <= 0x39
}

pub open spec fn is_letter(b: u8) -> bool {
    (0x41 <= b <= 0x5A) || (0x61 <= b <= 0x7A)
}

/// The kinds of byte that a number is read from.
#[derive(Clone, Copy, PartialEq, Eq, Structural, Debug)]
pub enum ByteClass {
    /// `+` or `-`.
    Sign,
    /// `.`.
    Dot,
    /// `e` or `E`.
    Exponent,
    /// `0` to `9`.
    Digit,
}

pub open spec fn in_class(class: ByteClass, b: u8) -> bool {
    match class {
        ByteClass::Sign => b == 0x2Bu8 || b == 0x2Du8,
        ByteClass::Dot => b == 0x2Eu8,
        ByteClass::Exponent => b == 0x65u8 || b == 0x45u8,
        ByteClass::Digit => is_digit(b),
    }
}

/// The first position at or after `pos` that holds no separator.
pub open spec fn skip_from(bytes: Seq<u8>, pos: int) -> int
    decreases bytes.len() - pos,
{
    if 0 <= pos < bytes.len() && is_separator(bytes[pos]) { skip_from(bytes, pos + 1) } else { pos }
}

/// The first position at or after `pos` that holds no digit.
pub open spec fn digits_from(bytes: Seq<u8>, pos: int) -> int
    decreases bytes.len() - pos,
{
    if 0 <= pos < bytes.len() && is_digit(bytes[pos]) { digits_from(bytes, pos + 1) } else { pos }
}

/// The position after one byte of `class` at `pos`, if one stands there.
pub open spec fn after_class(bytes: Seq<u8>, pos: int, class: ByteClass) -> int {
    if 0 <= pos < bytes.len() && in_class(class, bytes[pos]) { pos + 1 } else { pos }
}

/// Reading a number at `pos`: after separators, an optional sign, digits, and a `.`
/// with digits, at least one of the two runs of digits not empty; then an exponent if
/// one with digits follows. Gives the span of the number, or none, and the position
/// after it (after the separators when there is no number).
pub open spec fn number_scan(bytes: Seq<u8>, pos: int) -> (Option<(usize, usize)>, int) {
    let start = skip_from(bytes, pos);
    let p1 = after_class(bytes, start, ByteClass::Sign);
    let p2 = digits_from(bytes, p1);
    let p3 = after_class(bytes, p2, ByteClass::Dot);
    let p4 = if p3 > p2 { digits_from(bytes, p3) } else { p3 };
    if p2 == p1 && p4 == p3 {
        (None, start)
    } else {
        let q1 = after_class(bytes, p4, ByteClass::Exponent);
        let q2 = after_class(bytes, q1, ByteClass::Sign);
        let q3 = digits_from(bytes, q2);
        let end = if q1 > p4 && q3 > q2 { q3 } else { p4 };
        (Some((start as usize, end as usize)), end)
    }
}

/// A reading position in the bytes of a path's data.
pub struct Cursor<'a> {
    pub bytes: &'a [u8],
    pub pos: usize,
}

fn separator(b: u8) -> (found: bool)
    ensures
        found == is_separator(b),
{
    b == 0x20 || b == 0x09 || b == 0x0A || b == 0x0C || b == 0x0D || b == 0x2C
}

fn class_holds(class: ByteClass, b: u8) -> (found: bool)
    ensures
        found == in_class(class, b),
{
    match class {
        ByteClass::Sign => b == 0x2B || b == 0x2D,
        ByteClass::Dot => b == 0x2E,
        ByteClass::Exponent => b == 0x65 || b == 0x45,
        ByteClass::Digit => 0x30 <= b && b <= 0x39,
    }
}

proof fn lemma_skip_from(bytes: Seq<u8>, pos: int)
    ensures
        pos <= skip_from(bytes, pos),
        pos <= bytes.len() ==> skip_from(bytes, pos) <= bytes.len(),
    decreases bytes.len() - pos,
{
    if 0 <= pos < bytes.len() && is_separator(bytes[pos]) {
        lemma_skip_from(bytes, pos + 1);
    }
}

proof fn lemma_digits_from(bytes: Seq<u8>, pos: int)
    ensures
        pos <= digits_from(bytes, pos),
        pos <= bytes.len() ==> digits_from(bytes, pos) <= bytes.len(),
    decreases bytes.len() - pos,
{
    if 0 <= pos < bytes.len() && is_digit(bytes[pos]) {
        lemma_digits_from(bytes, pos + 1);
    }
}

impl<'a> Cursor<'a> {
    /// A cursor at the start of `bytes`.
    pub fn new(bytes: &'a [u8]) -> (cursor: Self)
        ensures
            cursor.bytes@ == bytes@,
            cursor.pos == 0,
    {
        Cursor { bytes, pos: 0 }
    }

    /// Moves past white space and commas.
    pub fn skip_separators(&mut self)
        ensures
            final(self).bytes == old(self).bytes,
            final(self).pos == skip_from(old(self).bytes@, old(self).pos as int),
    {
        while self.pos < self.bytes.len() && separator(self.bytes[self.pos])
            invariant
                self.bytes == old(self).bytes,
                skip_from(self.bytes@, old(self).pos as int) == skip_from(self.bytes@, self.pos as int),
            decreases self.bytes@.len() - self.pos,
        {
            self.pos = self.pos + 1;
        }
    }

    /// Reads a command letter after white space and commas, if one stands there.
    pub fn letter(&mut self) -> (found: Option<u8>)
        ensures
            final(self).bytes == old(self).bytes,
            ({
                let at = skip_from(old(self).bytes@, old(self).pos as int);
                if 0 <= at < old(self).bytes@.len() && is_letter(old(self).bytes@[at]) {
                    found == Some(old(self).bytes@[at]) && final(self).pos == at + 1
                } else {
                    found is None && final(self).pos == at
                }
            }),
    {
        self.skip_separators();
        if self.pos >= self.bytes.len() {
            return None;
        }
        let byte = self.bytes[self.pos];
        if !((0x41 <= byte && byte <= 0x5A) || (0x61 <= byte && byte <= 0x7A)) {
            return None;
        }
        self.pos = self.pos + 1;
        Some(byte)
    }

    /// Reads a flag after white space and commas: `0` or `1`. Any byte there is read,
    /// whether it is a flag or not.
    pub fn flag(&mut self) -> (found: Option<bool>)
        ensures
            final(self).bytes == old(self).bytes,
            ({
                let at = skip_from(old(self).bytes@, old(self).pos as int);
                if 0 <= at < old(self).bytes@.len() {
                    &&& final(self).pos == at + 1
                    &&& found == if old(self).bytes@[at] == 0x30u8 {
                        Some(false)
                    } else if old(self).bytes@[at] == 0x31u8 {
                        Some(true)
                    } else {
                        None
                    }
                } else {
                    found is None && final(self).pos == at
                }
            }),
    {
        self.skip_separators();
        if self.pos >= self.bytes.len() {
            return None;
        }
        let byte = self.bytes[self.pos];
        self.pos = self.pos + 1;
        if byte == 0x30 {
            Some(false)
        } else if byte == 0x31 {
            Some(true)
        } else {
            None
        }
    }

    /// Moves past the next byte if it is of `class`, and tells whether it did.
    pub fn eat(&mut self, class: ByteClass) -> (matched: bool)
        ensures
            final(self).bytes == old(self).bytes,
            matched == (old(self).pos < old(self).bytes@.len() && in_class(class, old(self).bytes@[old(self).pos as int])),
            final(self).pos == after_class(old(self).bytes@, old(self).pos as int, class),
    {
        let matched = self.pos < self.bytes.len() && class_holds(class, self.bytes[self.pos]);
        if matched {
            self.pos = self.pos + 1;
        }
        matched
    }

    /// Moves past a run of digits, and tells whether there was one.
    pub fn digits(&mut self) -> (found: bool)
        ensures
            final(self).bytes == old(self).bytes,
            final(self).pos == digits_from(old(self).bytes@, old(self).pos as int),
            found == (final(self).pos > old(self).pos),
    {
        let start = self.pos;
        proof {
            lemma_digits_from(self.bytes@, start as int);
        }
        while self.eat(ByteClass::Digit)
            invariant
                self.bytes == old(self).bytes,
                start == old(self).pos,
                start <= self.pos,
                digits_from(self.bytes@, start as int) == digits_from(self.bytes@, self.pos as int),
            decreases self.bytes@.len() - self.pos,
        {
        }
        self.pos > start
    }

    /// Moves past white space and commas, and tells whether the data is used up.
    pub fn done(&mut self) -> (finished: bool)
        ensures
            final(self).bytes == old(self).bytes,
            final(self).pos == skip_from(old(self).bytes@, old(self).pos as int),
            finished == (final(self).pos >= old(self).bytes@.len()),
    {
        self.skip_separators();
        self.pos >= self.bytes.len()
    }

    /// Reads a number after white space and commas (see `number_scan`) and gives its
    /// span; the text of the span is a number in Rust's float syntax.
    pub fn number_span(&mut self) -> (span: Option<(usize, usize)>)
        ensures
            final(self).bytes == old(self).bytes,
            span == number_scan(old(self).bytes@, old(self).pos as int).0,
            final(self).pos == number_scan(old(self).bytes@, old(self).pos as int).1,
    {
        self.skip_separators();
        let start = self.pos;
        self.eat(ByteClass::Sign);
        let p1 = self.pos;
        let digits = self.digits();
        let p2 = self.pos;
        let dot = self.eat(ByteClass::Dot);
        let p3 = self.pos;
        let fraction = if dot { self.digits() } else { false };
        proof {
            let bytes = old(self).bytes@;
            assert(start == skip_from(bytes, old(self).pos as int));
            assert(p1 == after_class(bytes, start as int, ByteClass::Sign));
            assert(p2 == digits_from(bytes, p1 as int));
            assert(p3 == after_class(bytes, p2 as int, ByteClass::Dot));
            assert(self.pos == if p3 > p2 { digits_from(bytes, p3 as int) } else { p3 as int });
            assert(digits == (p2 > p1));
            assert(fraction == (self.pos > p3));
            lemma_digits_from(bytes, p1 as int);
            lemma_digits_from(bytes, p3 as int);
        }
        if !digits && !fraction {
            self.pos = start;
            return None;
        }
        let mark = self.pos;
        if self.eat(ByteClass::Exponent) {
            self.eat(ByteClass::Sign);
            if !self.digits() {
                self.pos = mark;
            }
        }
        Some((start, self.pos))
    }
}

} // verus!

verus! {

/// An argument of a path command: a number, by the span of its text, or a flag.
#[derive(Clone, Copy, PartialEq, Eq, Structural, Debug)]
pub enum Arg {
    Number(usize, usize),
    Flag(bool),
}

/// The position of the flag read at `pos` (see `Cursor::flag`), and the flag if the byte
/// there is `0` or `1`.
pub open spec fn flag_scan(bytes: Seq<u8>, pos: int) -> (Option<bool>, int) {
    let at = skip_from(bytes, pos);
    if 0 <= at < bytes.len() {
        (if bytes[at] == 0x30u8 { Some(false) } else if bytes[at] == 0x31u8 { Some(true) } else { None }, at + 1)
    } else {
        (None, at)
    }
}

/// The arguments of a command, read from `pos` on: a number for each `true` of `kinds`,
/// a flag for each `false`; none when one of them is missing.
pub open spec fn read_args(bytes: Seq<u8>, pos: int, kinds: Seq<bool>) -> Option<(Seq<Arg>, int)>
    decreases kinds.len(),
{
    if kinds.len() == 0 {
        Some((Seq::empty(), pos))
    } else if kinds[0] {
        match number_scan(bytes, pos) {
            (None, _) => None,
            (Some(span), next) => match read_args(bytes, next, kinds.drop_first()) {
                None => None,
                Some((rest, end)) => Some((seq![Arg::Number(span.0, span.1)] + rest, end)),
            },
        }
    } else {
        match flag_scan(bytes, pos) {
            (None, _) => None,
            (Some(f), next) => match read_args(bytes, next, kinds.drop_first()) {
                None => None,
                Some((rest, end)) => Some((seq![Arg::Flag(f)] + rest, end)),
            },
        }
    }
}

/// The upper-case form of a letter.
pub open spec fn upper(letter: u8) -> u8 {
    if 0x61 <= letter <= 0x7A { (letter - 0x20) as u8 } else { letter }
}

/// The arguments that the command `upper` takes (`true` for a number, `false` for a
/// flag), or none for a letter that is no command.
pub open spec fn command_shape(upper: u8) -> Option<Seq<bool>> {
    if upper == 0x4Du8 || upper == 0x4Cu8 || upper == 0x54u8 {
        Some(seq![true, true])
    } else if upper == 0x48u8 || upper == 0x56u8 {
        Some(seq![true])
    } else if upper == 0x43u8 {
        Some(seq![true, true, true, true, true, true])
    } else if upper == 0x53u8 || upper == 0x51u8 {
        Some(seq![true, true, true, true])
    } else if upper == 0x41u8 {
        Some(seq![true, true, true, false, false, true, true])
    } else if upper == 0x5Au8 {
        Some(Seq::empty())
    } else {
        None
    }
}

/// The letter that applies after a command `letter`: a move goes on as a line (relative
/// after a relative move), a close needs a new letter, any other repeats.
pub open spec fn next_letter(letter: u8) -> u8 {
    if upper(letter) == 0x4Du8 {
        if letter == 0x6Du8 { 0x6Cu8 } else { 0x4Cu8 }
    } else if upper(letter) == 0x5Au8 {
        0
    } else {
        letter
    }
}

/// The commands of path data from `pos` on, `letter` being the one that applies when no
/// letter is written (0 for none): each command with its letter, as written or implied,
/// and its arguments. Reading stops at the end, at a missing letter, at a letter that is
/// no command, or at a missing argument. `fuel` bounds the count.
pub open spec fn tokens_from(bytes: Seq<u8>, pos: int, letter: u8, fuel: nat) -> Seq<(u8, Seq<Arg>)>
    decreases fuel,
{
    let at = skip_from(bytes, pos);
    if fuel == 0 || at >= bytes.len() {
        Seq::empty()
    } else {
        let (l, p) = if 0 <= at && is_letter(bytes[at]) { (bytes[at], at + 1) } else { (letter, at) };
        if l == 0 {
            Seq::empty()
        } else {
            match command_shape(upper(l)) {
                None => Seq::empty(),
                Some(kinds) => match read_args(bytes, p, kinds) {
                    None => Seq::empty(),
                    Some((args, q)) => seq![(l, args)] + tokens_from(bytes, q, next_letter(l), (fuel - 1) as nat),
                },
            }
        }
    }
}

/// The commands of path data (see `tokens_from`).
pub open spec fn spec_path_tokens(bytes: Seq<u8>) -> Seq<(u8, Seq<Arg>)> {
    tokens_from(bytes, 0, 0, bytes.len() + 1)
}

/// The commands with their argument lists taken as sequences.
pub open spec fn token_views(tokens: Seq<(u8, Vec<Arg>)>) -> Seq<(u8, Seq<Arg>)> {
    tokens.map_values(|t: (u8, Vec<Arg>)| (t.0, t.1@))
}

proof fn lemma_skip_twice(bytes: Seq<u8>, pos: int)
    ensures
        skip_from(bytes, skip_from(bytes, pos)) == skip_from(bytes, pos),
    decreases bytes.len() - pos,
{
    if 0 <= pos < bytes.len() && is_separator(bytes[pos]) {
        lemma_skip_twice(bytes, pos + 1);
    }
}

proof fn lemma_number_progress(bytes: Seq<u8>, pos: int)
    requires
        0 <= pos <= bytes.len(),
    ensures
        pos <= number_scan(bytes, pos).1 <= bytes.len(),
        number_scan(bytes, pos).0 is Some ==> number_scan(bytes, pos).1 > pos,
{
    lemma_skip_from(bytes, pos);
    let start = skip_from(bytes, pos);
    let p1 = after_class(bytes, start, ByteClass::Sign);
    lemma_digits_from(bytes, p1);
    let p2 = digits_from(bytes, p1);
    let p3 = after_class(bytes, p2, ByteClass::Dot);
    lemma_digits_from(bytes, p3);
    let p4 = if p3 > p2 { digits_from(bytes, p3) } else { p3 };
    let q1 = after_class(bytes, p4, ByteClass::Exponent);
    let q2 = after_class(bytes, q1, ByteClass::Sign);
    lemma_digits_from(bytes, q2);
}

proof fn lemma_args_progress(bytes: Seq<u8>, pos: int, kinds: Seq<bool>)
    requires
        0 <= pos <= bytes.len(),
    ensures
        read_args(bytes, pos, kinds) matches Some((args, q)) ==> pos <= q <= bytes.len() && args.len() == kinds.len()
            && (kinds.len() > 0 ==> q > pos),
    decreases kinds.len(),
{
    if kinds.len() > 0 {
        if kinds[0] {
            lemma_number_progress(bytes, pos);
            let next = number_scan(bytes, pos).1;
            lemma_args_progress(bytes, next, kinds.drop_first());
        } else {
            lemma_skip_from(bytes, pos);
            let next = flag_scan(bytes, pos).1;
            lemma_args_progress(bytes, next, kinds.drop_first());
        }
    }
}

fn shape_of(upper: u8) -> (kinds: Option<Vec<bool>>)
    ensures
        match command_shape(upper) {
            None => kinds is None,
            Some(s) => kinds matches Some(k) && k@ == s,
        },
{
    let kinds = if upper == 0x4D || upper == 0x4C || upper == 0x54 {
        vec![true, true]
    } else if upper == 0x48 || upper == 0x56 {
        vec![true]
    } else if upper == 0x43 {
        vec![true, true, true, true, true, true]
    } else if upper == 0x53 || upper == 0x51 {
        vec![true, true, true, true]
    } else if upper == 0x41 {
        vec![true, true, true, false, false, true, true]
    } else if upper == 0x5A {
        Vec::new()
    } else {
        return None;
    };
    assert(kinds@ =~= command_shape(upper)->0);
    Some(kinds)
}

impl<'a> Cursor<'a> {
    /// Reads the arguments of `kinds` (see `read_args`).
    fn args(&mut self, kinds: &Vec<bool>) -> (found: Option<Vec<Arg>>)
        requires
            old(self).pos <= old(self).bytes@.len(),
        ensures
            final(self).bytes == old(self).bytes,
            match read_args(old(self).bytes@, old(self).pos as int, kinds@) {
                None => found is None,
                Some((args, q)) => found matches Some(f) && f@ == args && final(self).pos == q,
            },
    {
        let mut args: Vec<Arg> = Vec::new();
        let mut i: usize = 0;
        proof {
            assert(kinds@.skip(0) =~= kinds@);
            match read_args(self.bytes@, self.pos as int, kinds@) {
                None => {},
                Some((rest, q)) => {
                    assert(args@ + rest =~= rest);
                },
            }
        }
        while i < kinds.len()
            invariant
                self.bytes == old(self).bytes,
                i <= kinds@.len(),
                self.pos <= self.bytes@.len(),
                read_args(old(self).bytes@, old(self).pos as int, kinds@) == match read_args(self.bytes@, self.pos as int, kinds@.skip(i as int)) {
                    None => None,
                    Some((rest, q)) => Some((args@ + rest, q)),
                },
            decreases kinds@.len() - i,
        {
            let ghost before = self.pos as int;
            assert(kinds@.skip(i as int)[0] == kinds@[i as int]);
            assert(kinds@.skip(i as int).drop_first() =~= kinds@.skip(i + 1));
            if kinds[i] {
                proof {
                    lemma_number_progress(self.bytes@, before);
                }
                match self.number_span() {
                    None => {
                        assert(read_args(self.bytes@, before, kinds@.skip(i as int)) is None);
                        assert(read_args(old(self).bytes@, old(self).pos as int, kinds@) is None);
                        return None;
                    },
                    Some(span) => {
                        let ghost prior = args@;
                        args.push(Arg::Number(span.0, span.1));
                        proof {
                            assert forall|rest: Seq<Arg>| #[trigger] (prior + (seq![Arg::Number(span.0, span.1)] + rest)) == args@ + rest by {
                                assert(prior + (seq![Arg::Number(span.0, span.1)] + rest) =~= args@ + rest);
                            }
                        }
                    },
                }
            } else {
                proof {
                    lemma_skip_from(self.bytes@, before);
                }
                match self.flag() {
                    None => {
                        assert(read_args(self.bytes@, before, kinds@.skip(i as int)) is None);
                        assert(read_args(old(self).bytes@, old(self).pos as int, kinds@) is None);
                        return None;
                    },
                    Some(f) => {
                        let ghost prior = args@;
                        args.push(Arg::Flag(f));
                        proof {
                            assert forall|rest: Seq<Arg>| #[trigger] (prior + (seq![Arg::Flag(f)] + rest)) == args@ + rest by {
                                assert(prior + (seq![Arg::Flag(f)] + rest) =~= args@ + rest);
                            }
                        }
                    },
                }
            }
            i = i + 1;
        }
        assert(kinds@.skip(i as int) =~= Seq::<bool>::empty());
        assert(args@ + Seq::<Arg>::empty() =~= args@);
        Some(args)
    }
}

/// The commands of path data: each with its letter, as written or implied (a move goes
/// on as lines, a close needs a new letter), and its arguments, numbers by the spans of
/// their text; reading stops at the first command that cannot be read whole.
pub fn path_tokens(data: &[u8]) -> (tokens: Vec<(u8, Vec<Arg>)>)
    ensures
        token_views(tokens@) == spec_path_tokens(data@),
{
    let mut cursor = Cursor::new(data);
    let mut letter: u8 = 0;
    let mut tokens: Vec<(u8, Vec<Arg>)> = Vec::new();
    let ghost goal = spec_path_tokens(data@);
    let ghost mut fuel: nat = (data@.len() + 1) as nat;
    let mut going = true;
    while going
        invariant
            cursor.bytes@ == data@,
            going ==> cursor.pos <= data@.len(),
            upper(letter) != 0x5Au8,
            going ==> fuel >= data@.len() - cursor.pos + 1,
            going ==> goal == token_views(tokens@) + tokens_from(data@, cursor.pos as int, letter, fuel),
            !going ==> goal == token_views(tokens@),
        decreases if going { data@.len() - cursor.pos + 1 } else { 0 },
    {
        let ghost pos = cursor.pos as int;
        proof {
            lemma_skip_from(data@, pos);
            lemma_skip_twice(data@, pos);
        }
        let ghost rest = tokens_from(data@, pos, letter, fuel);
        if cursor.done() {
            going = false;
            proof {
                assert(rest == Seq::<(u8, Seq<Arg>)>::empty());
                assert(token_views(tokens@) + rest =~= token_views(tokens@));
            }
        } else {
            let l = match cursor.letter() {
                Some(byte) => byte,
                None => letter,
            };
            let up = if 0x61 <= l && l <= 0x7A { l - 0x20 } else { l };
            assert(up == upper(l));
            if l == 0 {
                going = false;
                proof {
                    assert(token_views(tokens@) + rest =~= token_views(tokens@));
                }
            } else {
                match shape_of(up) {
                    None => {
                        going = false;
                        proof {
                            assert(token_views(tokens@) + rest =~= token_views(tokens@));
                        }
                    },
                    Some(kinds) => {
                        let ghost p = cursor.pos as int;
                        proof {
                            lemma_args_progress(data@, p, kinds@);
                        }
                        match cursor.args(&kinds) {
                            None => {
                                going = false;
                                proof {
                                    assert(token_views(tokens@) + rest =~= token_views(tokens@));
                                }
                            },
                            Some(args) => {
                                let next = if up == 0x4D {
                                    if l == 0x6D { 0x6Cu8 } else { 0x4Cu8 }
                                } else if up == 0x5A {
                                    0u8
                                } else {
                                    l
                                };
                                assert(next == next_letter(l));
                                assert(upper(next) != 0x5Au8);
                                assert(cursor.pos > pos);
                                let ghost prior = tokens@;
                                tokens.push((l, args));
                                proof {
                                    assert(token_views(tokens@) =~= token_views(prior).push((l, args@)));
                                    assert(token_views(prior) + rest =~= token_views(tokens@)
                                        + tokens_from(data@, cursor.pos as int, next, (fuel - 1) as nat));
                                    fuel = (fuel - 1) as nat;
                                }
                                letter = next;
                            },
                        }
                    },
                }
            }
        }
    }
    tokens
}

} // verus!
