//! The line-oriented control protocol spoken to the shaping backend: one
//! message per line, three message shapes (global limit, per-program limit,
//! interface selection), rates encoded as `<digits><unit>` with `-` for an
//! unset rate so that "no limit" stays distinct from a zero rate.

use vstd::prelude::*;
use crate::text::find_at;
use crate::text::find_char_from;

verus! {

/// The closed set of rate units the protocol knows.
#[derive(Clone, Copy, PartialEq, Eq, Structural, Debug)]
pub enum RateUnit {
    Bps,
    Kbps,
    Mbps,
}

/// A bandwidth rate: a numeric magnitude and its unit.
#[derive(Clone, Copy, PartialEq, Eq, Structural, Debug)]
pub struct Rate {
    pub amount: u64,
    pub unit: RateUnit,
}

/// A limit-change intent, constructed once per user action and sent at once.
/// An absent rate means "no limit", never zero.
#[derive(PartialEq, Eq, Debug)]
pub enum Message {
    Global(Option<Rate>, Option<Rate>),
    Program(String, (Option<Rate>, Option<Rate>, Option<Rate>, Option<Rate>)),
    Interface(String),
}

/// Mathematical model of a `Message`.
pub enum MessageModel {
    Global(Option<Rate>, Option<Rate>),
    Program(Seq<char>, (Option<Rate>, Option<Rate>, Option<Rate>, Option<Rate>)),
    Interface(Seq<char>),
}

impl View for Message {
    type V = MessageModel;

    open spec fn view(&self) -> MessageModel {
        match self {
            Message::Global(d, u) => MessageModel::Global(*d, *u),
            Message::Program(name, r) => MessageModel::Program(name@, *r),
            Message::Interface(name) => MessageModel::Interface(name@),
        }
    }
}

pub open spec fn unit_chars(u: RateUnit) -> Seq<char> {
    match u {
        RateUnit::Bps => seq!['B', 'p', 's'],
        RateUnit::Kbps => seq!['K', 'b', 'p', 's'],
        RateUnit::Mbps => seq!['M', 'b', 'p', 's'],
    }
}

pub open spec fn digit_char(d: int) -> char {
    if d == 0 {
        '0'
    } else if d == 1 {
        '1'
    } else if d == 2 {
        '2'
    } else if d == 3 {
        '3'
    } else if d == 4 {
        '4'
    } else if d == 5 {
        '5'
    } else if d == 6 {
        '6'
    } else if d == 7 {
        '7'
    } else if d == 8 {
        '8'
    } else {
        '9'
    }
}

/// The value of a decimal digit character, or 10 for any other character.
pub open spec fn digit_val(c: char) -> int {
    if c == '0' {
        0
    } else if c == '1' {
        1
    } else if c == '2' {
        2
    } else if c == '3' {
        3
    } else if c == '4' {
        4
    } else if c == '5' {
        5
    } else if c == '6' {
        6
    } else if c == '7' {
        7
    } else if c == '8' {
        8
    } else if c == '9' {
        9
    } else {
        10
    }
}

/// The decimal digits of `n`, most significant first, no leading zeros.
pub open spec fn dec_chars(n: nat) -> Seq<char>
    decreases n,
{
    if n < 10 {
        seq![digit_char(n as int)]
    } else {
        dec_chars(n / 10).push(digit_char((n % 10) as int))
    }
}

/// The numeric value of a digit string, read most significant first.
pub open spec fn digits_val(s: Seq<char>) -> int
    decreases s.len(),
{
    if s.len() == 0 {
        0
    } else {
        digits_val(s.drop_last()) * 10 + digit_val(s.last())
    }
}

pub open spec fn all_digits(s: Seq<char>) -> bool {
    forall|k: int| 0 <= k < s.len() ==> digit_val(#[trigger] s[k]) < 10
}

/// Wire form of one rate field.
pub open spec fn rate_chars(r: Option<Rate>) -> Seq<char> {
    match r {
        None => seq!['-'],
        Some(rate) => dec_chars(rate.amount as nat) + unit_chars(rate.unit),
    }
}

pub open spec fn global_tag() -> Seq<char> {
    seq!['g', 'l', 'o', 'b', 'a', 'l', ' ']
}

pub open spec fn program_tag() -> Seq<char> {
    seq!['p', 'r', 'o', 'g', 'r', 'a', 'm', ' ']
}

pub open spec fn interface_tag() -> Seq<char> {
    seq!['i', 'n', 't', 'e', 'r', 'f', 'a', 'c', 'e', ' ']
}

/// Wire form of one message: a single tagged, newline-terminated line. A
/// program's name stands last so that it may itself contain spaces.
pub open spec fn encode_msg(m: MessageModel) -> Seq<char> {
    match m {
        MessageModel::Global(d, u) => global_tag() + rate_chars(d) + seq![' '] + rate_chars(u)
            + seq!['\n'],
        MessageModel::Program(name, r) => program_tag() + rate_chars(r.0) + seq![' ']
            + rate_chars(r.1) + seq![' '] + rate_chars(r.2) + seq![' '] + rate_chars(r.3)
            + seq![' '] + name + seq!['\n'],
        MessageModel::Interface(name) => interface_tag() + name + seq!['\n'],
    }
}

pub open spec fn starts_with(s: Seq<char>, pre: Seq<char>) -> bool {
    s.len() >= pre.len() && s.take(pre.len() as int) == pre
}

pub open spec fn ends_with(s: Seq<char>, suf: Seq<char>) -> bool {
    s.len() >= suf.len() && s.skip(s.len() - suf.len()) == suf
}

/// Decodes one rate field, as the backend reads it: `-` is "unset"; any
/// digit string followed by a unit is a set rate, if its value fits.
pub open spec fn parse_rate(t: Seq<char>) -> Option<Option<Rate>> {
    if t == seq!['-'] {
        Some(None)
    } else if ends_with(t, unit_chars(RateUnit::Kbps)) {
        parse_amount(t, RateUnit::Kbps)
    } else if ends_with(t, unit_chars(RateUnit::Mbps)) {
        parse_amount(t, RateUnit::Mbps)
    } else if ends_with(t, unit_chars(RateUnit::Bps)) {
        parse_amount(t, RateUnit::Bps)
    } else {
        None
    }
}

pub open spec fn parse_amount(t: Seq<char>, u: RateUnit) -> Option<Option<Rate>> {
    let num = t.take(t.len() - unit_chars(u).len());
    if num.len() > 0 && all_digits(num) && digits_val(num) <= u64::MAX {
        Some(Some(Rate { amount: digits_val(num) as u64, unit: u }))
    } else {
        None
    }
}

pub open spec fn decode_global(rest: Seq<char>) -> Option<MessageModel> {
    let i = find_at(rest, ' ');
    if i < rest.len() {
        match (parse_rate(rest.take(i)), parse_rate(rest.skip(i + 1))) {
            (Some(d), Some(u)) => Some(MessageModel::Global(d, u)),
            _ => None,
        }
    } else {
        None
    }
}

pub open spec fn decode_program(rest: Seq<char>) -> Option<MessageModel> {
    let i1 = find_at(rest, ' ');
    if i1 >= rest.len() {
        None
    } else {
        let s1 = rest.skip(i1 + 1);
        let i2 = find_at(s1, ' ');
        if i2 >= s1.len() {
            None
        } else {
            let s2 = s1.skip(i2 + 1);
            let i3 = find_at(s2, ' ');
            if i3 >= s2.len() {
                None
            } else {
                let s3 = s2.skip(i3 + 1);
                let i4 = find_at(s3, ' ');
                if i4 >= s3.len() {
                    None
                } else {
                    let name = s3.skip(i4 + 1);
                    match (parse_rate(rest.take(i1)), parse_rate(s1.take(i2)), parse_rate(
                        s2.take(i3),
                    ), parse_rate(s3.take(i4))) {
                        (Some(d), Some(u), Some(dm), Some(um)) => Some(
                            MessageModel::Program(name, (d, u, dm, um)),
                        ),
                        _ => None,
                    }
                }
            }
        }
    }
}

/// The backend's reading of one received line.
pub open spec fn decode_msg(s: Seq<char>) -> Option<MessageModel> {
    if s.len() == 0 || s.last() != '\n' {
        None
    } else {
        let body = s.drop_last();
        if starts_with(body, interface_tag()) {
            Some(MessageModel::Interface(body.skip(interface_tag().len() as int)))
        } else if starts_with(body, global_tag()) {
            decode_global(body.skip(global_tag().len() as int))
        } else if starts_with(body, program_tag()) {
            decode_program(body.skip(program_tag().len() as int))
        } else {
            None
        }
    }
}

pub open spec fn no_newline(s: Seq<char>) -> bool {
    forall|k: int| 0 <= k < s.len() ==> s[k] != '\n'
}

/// A message is wire-safe when its name carries no line separator.
pub open spec fn msg_wf(m: MessageModel) -> bool {
    match m {
        MessageModel::Global(_, _) => true,
        MessageModel::Program(name, _) => no_newline(name),
        MessageModel::Interface(name) => no_newline(name),
    }
}

/// Digit strings produced by `dec_chars` are nonempty, all digits, and
/// evaluate back to the encoded number.
proof fn lemma_dec_chars(n: nat)
    ensures
        dec_chars(n).len() > 0,
        all_digits(dec_chars(n)),
        digits_val(dec_chars(n)) == n,
    decreases n,
{
    assert(digits_val(Seq::<char>::empty()) == 0);
    if n < 10 {
        let s = dec_chars(n);
        assert(s.drop_last() =~= Seq::<char>::empty());
        assert(s.last() == digit_char(n as int));
        assert(digits_val(s) == digit_val(digit_char(n as int)));
    } else {
        lemma_dec_chars(n / 10);
        let prev = dec_chars(n / 10);
        let s = dec_chars(n);
        assert(s.drop_last() =~= prev);
        assert(s.last() == digit_char((n % 10) as int));
        assert(digits_val(s) == digits_val(prev) * 10 + digit_val(digit_char((n % 10) as int)));
        assert forall|k: int| 0 <= k < s.len() implies digit_val(#[trigger] s[k]) < 10 by {
            if k < prev.len() {
                assert(s[k] == prev[k]);
            }
        }
    }
}

/// No character of an encoded rate is a space or a newline.
proof fn lemma_rate_chars_plain(r: Option<Rate>)
    ensures
        forall|k: int|
            0 <= k < rate_chars(r).len() ==> #[trigger] rate_chars(r)[k] != ' ' && rate_chars(
                r,
            )[k] != '\n',
{
    match r {
        None => {},
        Some(rate) => {
            lemma_dec_chars(rate.amount as nat);
            let num = dec_chars(rate.amount as nat);
            assert forall|k: int| 0 <= k < rate_chars(r).len() implies #[trigger] rate_chars(r)[k]
                != ' ' && rate_chars(r)[k] != '\n' by {
                if k < num.len() {
                    assert(rate_chars(r)[k] == num[k]);
                    assert(digit_val(num[k]) < 10);
                } else {
                    assert(rate_chars(r)[k] == unit_chars(rate.unit)[k - num.len()]);
                }
            }
        },
    }
}

/// Decoding an encoded rate recovers it exactly, unset kept distinct from
/// any set value.
proof fn lemma_parse_rate_chars(r: Option<Rate>)
    ensures
        parse_rate(rate_chars(r)) == Some(r),
{
    match r {
        None => {},
        Some(rate) => {
            lemma_dec_chars(rate.amount as nat);
            let num = dec_chars(rate.amount as nat);
            let uc = unit_chars(rate.unit);
            let t = num + uc;
            assert(t.len() >= 4);
            assert(t != seq!['-']) by {
                if t == seq!['-'] {
                    assert(t.len() == 1);
                }
            }
            assert(t.skip(t.len() - uc.len()) =~= uc);
            assert(ends_with(t, uc));
            assert(t.take(t.len() - uc.len()) =~= num);
            let k3 = unit_chars(RateUnit::Kbps);
            let m3 = unit_chars(RateUnit::Mbps);
            let b3 = unit_chars(RateUnit::Bps);
            match rate.unit {
                RateUnit::Bps => {
                    assert(!ends_with(t, k3)) by {
                        if ends_with(t, k3) {
                            assert(t.skip(t.len() - 4)[0] == t[t.len() - 4]);
                            if num.len() >= 2 {
                                assert(t[t.len() - 4] == num[num.len() - 1]);
                                assert(digit_val(num[num.len() - 1]) < 10);
                            } else {
                                assert(t[t.len() - 4] == num[0]);
                                assert(digit_val(num[0]) < 10);
                            }
                        }
                    }
                    assert(!ends_with(t, m3)) by {
                        if ends_with(t, m3) {
                            assert(t.skip(t.len() - 4)[0] == t[t.len() - 4]);
                            assert(t[t.len() - 4] == num[num.len() - 1]);
                            assert(digit_val(num[num.len() - 1]) < 10);
                        }
                    }
                    assert(parse_amount(t, RateUnit::Bps) == Some(r));
                },
                RateUnit::Kbps => {
                    assert(parse_amount(t, RateUnit::Kbps) == Some(r));
                },
                RateUnit::Mbps => {
                    assert(!ends_with(t, k3)) by {
                        if ends_with(t, k3) {
                            assert(t.skip(t.len() - 4)[0] == t[t.len() - 4]);
                            assert(t[t.len() - 4] == uc[0]);
                        }
                    }
                    assert(parse_amount(t, RateUnit::Mbps) == Some(r));
                },
            }
        },
    }
}


/// A whole line holds no separator but the final one.
pub open spec fn single_line(s: Seq<char>) -> bool {
    s.len() > 0 && s.last() == '\n' && no_newline(s.drop_last())
}

proof fn lemma_no_newline_concat(a: Seq<char>, b: Seq<char>)
    requires
        no_newline(a),
        no_newline(b),
    ensures
        no_newline(a + b),
{
    assert forall|k: int| 0 <= k < (a + b).len() implies (a + b)[k] != '\n' by {
        if k < a.len() {
            assert((a + b)[k] == a[k]);
        } else {
            assert((a + b)[k] == b[k - a.len()]);
        }
    }
}

proof fn lemma_rate_no_newline(r: Option<Rate>)
    ensures
        no_newline(rate_chars(r)),
{
    lemma_rate_chars_plain(r);
}

/// Every encoded message is exactly one line: writing it whole can never
/// split or merge backend commands.
pub proof fn lemma_encode_single_line(m: MessageModel)
    requires
        msg_wf(m),
    ensures
        single_line(encode_msg(m)),
{
    match m {
        MessageModel::Global(d, u) => {
            let body = global_tag() + rate_chars(d) + seq![' '] + rate_chars(u);
            lemma_rate_no_newline(d);
            lemma_rate_no_newline(u);
            lemma_no_newline_concat(global_tag(), rate_chars(d));
            lemma_no_newline_concat(global_tag() + rate_chars(d), seq![' ']);
            lemma_no_newline_concat(global_tag() + rate_chars(d) + seq![' '], rate_chars(u));
            assert(encode_msg(m).drop_last() =~= body);
            assert(encode_msg(m).last() == '\n');
        },
        MessageModel::Program(name, r) => {
            let b1 = program_tag() + rate_chars(r.0);
            let b2 = b1 + seq![' '];
            let b3 = b2 + rate_chars(r.1);
            let b4 = b3 + seq![' '];
            let b5 = b4 + rate_chars(r.2);
            let b6 = b5 + seq![' '];
            let b7 = b6 + rate_chars(r.3);
            let b8 = b7 + seq![' '];
            let body = b8 + name;
            lemma_rate_no_newline(r.0);
            lemma_rate_no_newline(r.1);
            lemma_rate_no_newline(r.2);
            lemma_rate_no_newline(r.3);
            lemma_no_newline_concat(program_tag(), rate_chars(r.0));
            lemma_no_newline_concat(b1, seq![' ']);
            lemma_no_newline_concat(b2, rate_chars(r.1));
            lemma_no_newline_concat(b3, seq![' ']);
            lemma_no_newline_concat(b4, rate_chars(r.2));
            lemma_no_newline_concat(b5, seq![' ']);
            lemma_no_newline_concat(b6, rate_chars(r.3));
            lemma_no_newline_concat(b7, seq![' ']);
            lemma_no_newline_concat(b8, name);
            assert(encode_msg(m).drop_last() =~= body);
            assert(encode_msg(m).last() == '\n');
        },
        MessageModel::Interface(name) => {
            let body = interface_tag() + name;
            lemma_no_newline_concat(interface_tag(), name);
            assert(encode_msg(m).drop_last() =~= body);
            assert(encode_msg(m).last() == '\n');
        },
    }
}


/// One step of peeling `rc + ' ' + rest2` off a rate-list suffix.
proof fn lemma_peel_rate(rest: Seq<char>, r: Option<Rate>, rest2: Seq<char>)
    requires
        rest == rate_chars(r) + seq![' '] + rest2,
    ensures
        find_at(rest, ' ') == rate_chars(r).len(),
        rest.take(rate_chars(r).len() as int) == rate_chars(r),
        rest.skip(rate_chars(r).len() as int + 1) == rest2,
        parse_rate(rest.take(rate_chars(r).len() as int)) == Some(r),
{
    let rc = rate_chars(r);
    lemma_rate_chars_plain(r);
    assert forall|k: int| 0 <= k < rc.len() implies rest[k] != ' ' by {
        assert(rest[k] == rc[k]);
    }
    assert(rest[rc.len() as int] == ' ');
    crate::text::lemma_find_at_is(rest, ' ', rc.len() as int);
    assert(rest.take(rc.len() as int) =~= rc);
    assert(rest.skip(rc.len() as int + 1) =~= rest2);
    lemma_parse_rate_chars(r);
}

proof fn lemma_decode_global(d: Option<Rate>, u: Option<Rate>)
    ensures
        decode_msg(encode_msg(MessageModel::Global(d, u))) == Some(MessageModel::Global(d, u)),
{
    let m = MessageModel::Global(d, u);
    let s = encode_msg(m);
    let itag = interface_tag();
    let gtag = global_tag();
    let body = gtag + rate_chars(d) + seq![' '] + rate_chars(u);
    assert(s.drop_last() =~= body);
    assert(s.last() == '\n');
    assert(body[0] == 'g');
    assert(!starts_with(body, itag)) by {
        if starts_with(body, itag) {
            assert(body.take(itag.len() as int)[0] == body[0]);
        }
    }
    assert(starts_with(body, gtag)) by {
        assert(body.take(gtag.len() as int) =~= gtag);
    }
    let rest = body.skip(gtag.len() as int);
    assert(rest =~= rate_chars(d) + seq![' '] + rate_chars(u));
    lemma_rate_chars_plain(d);
    lemma_rate_chars_plain(u);
    let rc = rate_chars(d);
    assert forall|k: int| 0 <= k < rc.len() implies rest[k] != ' ' by {
        assert(rest[k] == rc[k]);
    }
    assert(rest[rc.len() as int] == ' ');
    crate::text::lemma_find_at_is(rest, ' ', rc.len() as int);
    assert(rest.take(rc.len() as int) =~= rc);
    assert(rest.skip(rc.len() as int + 1) =~= rate_chars(u));
    lemma_parse_rate_chars(d);
    lemma_parse_rate_chars(u);
}

#[verifier::rlimit(50)]
proof fn lemma_decode_program(
    name: Seq<char>,
    r: (Option<Rate>, Option<Rate>, Option<Rate>, Option<Rate>),
)
    requires
        no_newline(name),
    ensures
        decode_msg(encode_msg(MessageModel::Program(name, r))) == Some(
            MessageModel::Program(name, r),
        ),
{
    let m = MessageModel::Program(name, r);
    let s = encode_msg(m);
    let itag = interface_tag();
    let gtag = global_tag();
    let ptag = program_tag();
    let rest3 = rate_chars(r.3) + seq![' '] + name;
    let rest2 = rate_chars(r.2) + seq![' '] + rest3;
    let rest1 = rate_chars(r.1) + seq![' '] + rest2;
    let rest0 = rate_chars(r.0) + seq![' '] + rest1;
    let body = ptag + rest0;
    assert(s =~= body + seq!['\n']);
    assert(s.drop_last() =~= body);
    assert(s.last() == '\n');
    assert(body[0] == 'p');
    assert(!starts_with(body, itag)) by {
        if starts_with(body, itag) {
            assert(body.take(itag.len() as int)[0] == body[0]);
        }
    }
    assert(!starts_with(body, gtag)) by {
        if starts_with(body, gtag) {
            assert(body.take(gtag.len() as int)[0] == body[0]);
        }
    }
    assert(starts_with(body, ptag)) by {
        assert(body.take(ptag.len() as int) =~= ptag);
    }
    assert(body.skip(ptag.len() as int) =~= rest0);
    lemma_peel_rate(rest0, r.0, rest1);
    lemma_peel_rate(rest1, r.1, rest2);
    lemma_peel_rate(rest2, r.2, rest3);
    lemma_peel_rate(rest3, r.3, name);
}

proof fn lemma_decode_interface(name: Seq<char>)
    requires
        no_newline(name),
    ensures
        decode_msg(encode_msg(MessageModel::Interface(name))) == Some(
            MessageModel::Interface(name),
        ),
{
    let m = MessageModel::Interface(name);
    let s = encode_msg(m);
    let itag = interface_tag();
    let body = itag + name;
    assert(s.drop_last() =~= body);
    assert(s.last() == '\n');
    assert(starts_with(body, itag)) by {
        assert(body.take(itag.len() as int) =~= itag);
    }
    assert(body.skip(itag.len() as int) =~= name);
}

/// Decoding an encoded message recovers the message exactly: every variant,
/// every field, with unset rates kept distinct from zero rates.
pub proof fn lemma_encode_decode(m: MessageModel)
    requires
        msg_wf(m),
    ensures
        decode_msg(encode_msg(m)) == Some(m),
{
    match m {
        MessageModel::Global(d, u) => lemma_decode_global(d, u),
        MessageModel::Program(name, r) => lemma_decode_program(name, r),
        MessageModel::Interface(name) => lemma_decode_interface(name),
    }
}


fn digit_str(d: u64) -> (r: &'static str)
    requires
        d < 10,
    ensures
        r@ == seq![digit_char(d as int)],
{
    let s: &'static str = if d == 0 {
        "0"
    } else if d == 1 {
        "1"
    } else if d == 2 {
        "2"
    } else if d == 3 {
        "3"
    } else if d == 4 {
        "4"
    } else if d == 5 {
        "5"
    } else if d == 6 {
        "6"
    } else if d == 7 {
        "7"
    } else if d == 8 {
        "8"
    } else {
        "9"
    };
    proof {
        reveal_strlit("0");
        reveal_strlit("1");
        reveal_strlit("2");
        reveal_strlit("3");
        reveal_strlit("4");
        reveal_strlit("5");
        reveal_strlit("6");
        reveal_strlit("7");
        reveal_strlit("8");
        reveal_strlit("9");
        assert(s@ =~= seq![digit_char(d as int)]);
    }
    s
}

/// Renders `x` in decimal, most significant digit first.
pub fn u64_to_string(x: u64) -> (r: String)
    ensures
        r@ == dec_chars(x as nat),
    decreases x,
{
    if x < 10 {
        digit_str(x).to_owned()
    } else {
        proof {
            assert(x / 10 < x) by (nonlinear_arith)
                requires
                    x >= 10,
            ;
        }
        let mut s = u64_to_string(x / 10);
        s.append(digit_str(x % 10));
        proof {
            assert(dec_chars((x / 10) as nat).push(digit_char((x % 10) as int)) =~= dec_chars(
                (x / 10) as nat,
            ) + seq![digit_char((x % 10) as int)]);
        }
        s
    }
}

fn unit_str(u: RateUnit) -> (r: &'static str)
    ensures
        r@ == unit_chars(u),
{
    match u {
        RateUnit::Bps => {
            proof {
                reveal_strlit("Bps");
                assert("Bps"@ =~= unit_chars(RateUnit::Bps));
            }
            "Bps"
        },
        RateUnit::Kbps => {
            proof {
                reveal_strlit("Kbps");
                assert("Kbps"@ =~= unit_chars(RateUnit::Kbps));
            }
            "Kbps"
        },
        RateUnit::Mbps => {
            proof {
                reveal_strlit("Mbps");
                assert("Mbps"@ =~= unit_chars(RateUnit::Mbps));
            }
            "Mbps"
        },
    }
}

fn append_rate(out: &mut String, r: &Option<Rate>)
    ensures
        final(out)@ == old(out)@ + rate_chars(*r),
{
    match r {
        None => {
            proof {
                reveal_strlit("-");
                assert("-"@ =~= seq!['-']);
            }
            out.append("-");
        },
        Some(rate) => {
            let num = u64_to_string(rate.amount);
            out.append(num.as_str());
            out.append(unit_str(rate.unit));
            proof {
                assert(old(out)@ + rate_chars(*r) =~= old(out)@ + dec_chars(rate.amount as nat)
                    + unit_chars(rate.unit));
            }
        },
    }
}

/// Serializes one intent into its single wire line.
pub fn encode(m: &Message) -> (r: String)
    ensures
        r@ == encode_msg(m@),
{
    let mut out = String::new();
    proof {
        reveal_strlit("global ");
        reveal_strlit("program ");
        reveal_strlit("interface ");
        reveal_strlit(" ");
        reveal_strlit("\n");
        assert("global "@ =~= global_tag());
        assert("program "@ =~= program_tag());
        assert("interface "@ =~= interface_tag());
        assert(" "@ =~= seq![' ']);
        assert("\n"@ =~= seq!['\n']);
    }
    match m {
        Message::Global(d, u) => {
            out.append("global ");
            append_rate(&mut out, d);
            out.append(" ");
            append_rate(&mut out, u);
            out.append("\n");
            proof {
                assert(out@ =~= encode_msg(m@));
            }
        },
        Message::Program(name, r) => {
            out.append("program ");
            append_rate(&mut out, &r.0);
            out.append(" ");
            append_rate(&mut out, &r.1);
            out.append(" ");
            append_rate(&mut out, &r.2);
            out.append(" ");
            append_rate(&mut out, &r.3);
            out.append(" ");
            out.append(name.as_str());
            out.append("\n");
            proof {
                assert(out@ =~= encode_msg(m@));
            }
        },
        Message::Interface(name) => {
            out.append("interface ");
            out.append(name.as_str());
            out.append("\n");
            proof {
                assert(out@ =~= encode_msg(m@));
            }
        },
    }
    out
}


fn digit_of(c: char) -> (d: u64)
    ensures
        d as int == digit_val(c),
{
    if c == '0' {
        0
    } else if c == '1' {
        1
    } else if c == '2' {
        2
    } else if c == '3' {
        3
    } else if c == '4' {
        4
    } else if c == '5' {
        5
    } else if c == '6' {
        6
    } else if c == '7' {
        7
    } else if c == '8' {
        8
    } else if c == '9' {
        9
    } else {
        10
    }
}

proof fn lemma_digits_val_nonneg(s: Seq<char>)
    ensures
        digits_val(s) >= 0,
    decreases s.len(),
{
    if s.len() > 0 {
        lemma_digits_val_nonneg(s.drop_last());
    }
}

proof fn lemma_digits_prefix_le(s: Seq<char>, k: int)
    requires
        0 <= k <= s.len(),
    ensures
        digits_val(s.take(k)) <= digits_val(s),
    decreases s.len() - k,
{
    if k == s.len() {
        assert(s.take(k) =~= s);
    } else {
        lemma_digits_prefix_le(s, k + 1);
        let t1 = s.take(k + 1);
        assert(t1.drop_last() =~= s.take(k));
        assert(t1.last() == s[k]);
        lemma_digits_val_nonneg(s.take(k));
    }
}

/// Reads a whole token as a decimal number; rejects empty tokens, non-digit
/// characters, and values that do not fit.
#[verifier::loop_isolation(false)]
fn parse_digits(t: &str) -> (r: Option<u64>)
    ensures
        match r {
            Some(v) => t@.len() > 0 && all_digits(t@) && digits_val(t@) == v as int,
            None => !(t@.len() > 0 && all_digits(t@) && digits_val(t@) <= u64::MAX),
        },
{
    let n = t.unicode_len();
    if n == 0 {
        return None;
    }
    let mut val: u64 = 0;
    let mut k: usize = 0;
    proof {
        assert(t@.take(0) =~= Seq::<char>::empty());
    }
    while k < n
        invariant
            k <= n,
            all_digits(t@.take(k as int)),
            val as int == digits_val(t@.take(k as int)),
        decreases n - k,
    {
        let c = t.get_char(k);
        let d = digit_of(c);
        if d >= 10 {
            proof {
                assert(digit_val(t@[k as int]) >= 10);
            }
            return None;
        }
        proof {
            let t1 = t@.take(k as int + 1);
            assert(t1.drop_last() =~= t@.take(k as int));
            assert(t1.last() == t@[k as int]);
            assert forall|j: int| 0 <= j < t1.len() implies digit_val(#[trigger] t1[j]) < 10 by {
                if j < k as int {
                    assert(t1[j] == t@.take(k as int)[j]);
                }
            }
        }
        let v10 = match val.checked_mul(10) {
            Some(v) => v,
            None => {
                proof {
                    lemma_digits_prefix_le(t@, k as int + 1);
                }
                return None;
            },
        };
        let v = match v10.checked_add(d) {
            Some(v) => v,
            None => {
                proof {
                    lemma_digits_prefix_le(t@, k as int + 1);
                }
                return None;
            },
        };
        val = v;
        k += 1;
    }
    proof {
        assert(t@.take(n as int) =~= t@);
    }
    Some(val)
}

#[verifier::loop_isolation(false)]
fn has_prefix(s: &str, pre: &str) -> (r: bool)
    ensures
        r == starts_with(s@, pre@),
{
    let n = s.unicode_len();
    let m = pre.unicode_len();
    if n < m {
        return false;
    }
    let mut k: usize = 0;
    while k < m
        invariant
            k <= m,
            forall|j: int| 0 <= j < k ==> s@[j] == pre@[j],
        decreases m - k,
    {
        if s.get_char(k) != pre.get_char(k) {
            proof {
                if starts_with(s@, pre@) {
                    assert(s@.take(m as int)[k as int] == pre@[k as int]);
                }
            }
            return false;
        }
        k += 1;
    }
    proof {
        assert(s@.take(m as int) =~= pre@);
    }
    true
}

#[verifier::loop_isolation(false)]
fn has_suffix(s: &str, suf: &str) -> (r: bool)
    ensures
        r == ends_with(s@, suf@),
{
    let n = s.unicode_len();
    let m = suf.unicode_len();
    if n < m {
        return false;
    }
    let mut k: usize = 0;
    while k < m
        invariant
            k <= m,
            forall|j: int| 0 <= j < k ==> s@[n - m + j] == suf@[j],
        decreases m - k,
    {
        if s.get_char(n - m + k) != suf.get_char(k) {
            proof {
                if ends_with(s@, suf@) {
                    assert(s@.skip(n as int - m as int)[k as int] == suf@[k as int]);
                    assert(s@.skip(n as int - m as int)[k as int] == s@[n - m + k]);
                }
            }
            return false;
        }
        k += 1;
    }
    proof {
        assert(s@.skip(n as int - m as int) =~= suf@);
    }
    true
}

fn parse_amount_exec(t: &str, u: RateUnit) -> (r: Option<Option<Rate>>)
    requires
        ends_with(t@, unit_chars(u)),
    ensures
        r == parse_amount(t@, u),
{
    let n = t.unicode_len();
    let m = unit_str(u).unicode_len();
    let num = t.substring_char(0, n - m);
    proof {
        assert(num@ =~= t@.take(t@.len() - unit_chars(u).len()));
    }
    match parse_digits(num) {
        Some(v) => Some(Some(Rate { amount: v, unit: u })),
        None => None,
    }
}

/// Reads one rate field back from its wire form.
fn parse_rate_exec(t: &str) -> (r: Option<Option<Rate>>)
    ensures
        r == parse_rate(t@),
{
    let n = t.unicode_len();
    if n == 1 && t.get_char(0) == '-' {
        proof {
            assert(t@ =~= seq!['-']);
        }
        return Some(None);
    }
    proof {
        if t@ == seq!['-'] {
            assert(t@.len() == 1);
            assert(t@[0] == '-');
        }
    }
    if has_suffix(t, unit_str(RateUnit::Kbps)) {
        return parse_amount_exec(t, RateUnit::Kbps);
    }
    if has_suffix(t, unit_str(RateUnit::Mbps)) {
        return parse_amount_exec(t, RateUnit::Mbps);
    }
    if has_suffix(t, unit_str(RateUnit::Bps)) {
        return parse_amount_exec(t, RateUnit::Bps);
    }
    None
}

/// Reads one wire line back into an intent, exactly as the backend does.
#[verifier::rlimit(80)]
pub fn decode(s: &str) -> (r: Option<Message>)
    ensures
        match r {
            Some(m) => decode_msg(s@) == Some(m@),
            None => decode_msg(s@) is None,
        },
{
    let n = s.unicode_len();
    if n == 0 {
        return None;
    }
    if s.get_char(n - 1) != '\n' {
        return None;
    }
    let body = s.substring_char(0, n - 1);
    proof {
        assert(body@ =~= s@.drop_last());
        reveal_strlit("interface ");
        reveal_strlit("global ");
        reveal_strlit("program ");
        assert("interface "@ =~= interface_tag());
        assert("global "@ =~= global_tag());
        assert("program "@ =~= program_tag());
    }
    let blen = body.unicode_len();
    if has_prefix(body, "interface ") {
        let name = body.substring_char(10, blen);
        proof {
            assert(name@ =~= body@.skip(interface_tag().len() as int));
        }
        return Some(Message::Interface(name.to_owned()));
    }
    if has_prefix(body, "global ") {
        let rest = body.substring_char(7, blen);
        proof {
            assert(rest@ =~= body@.skip(global_tag().len() as int));
        }
        let rn = rest.unicode_len();
        let i = find_char_from(rest, ' ', 0);
        proof {
            assert(rest@.skip(0) =~= rest@);
        }
        if i >= rn {
            return None;
        }
        let dtok = rest.substring_char(0, i);
        let utok = rest.substring_char(i + 1, rn);
        proof {
            assert(dtok@ =~= rest@.take(find_at(rest@, ' ')));
            assert(utok@ =~= rest@.skip(find_at(rest@, ' ') + 1));
        }
        return match (parse_rate_exec(dtok), parse_rate_exec(utok)) {
            (Some(d), Some(u)) => Some(Message::Global(d, u)),
            _ => None,
        };
    }
    if has_prefix(body, "program ") {
        let s0 = body.substring_char(8, blen);
        proof {
            assert(s0@ =~= body@.skip(program_tag().len() as int));
        }
        let n0 = s0.unicode_len();
        let i1 = find_char_from(s0, ' ', 0);
        proof {
            assert(s0@.skip(0) =~= s0@);
        }
        if i1 >= n0 {
            return None;
        }
        let t1 = s0.substring_char(0, i1);
        let s1 = s0.substring_char(i1 + 1, n0);
        proof {
            assert(t1@ =~= s0@.take(find_at(s0@, ' ')));
            assert(s1@ =~= s0@.skip(find_at(s0@, ' ') + 1));
        }
        let n1 = s1.unicode_len();
        let i2 = find_char_from(s1, ' ', 0);
        proof {
            assert(s1@.skip(0) =~= s1@);
        }
        if i2 >= n1 {
            return None;
        }
        let t2 = s1.substring_char(0, i2);
        let s2 = s1.substring_char(i2 + 1, n1);
        proof {
            assert(t2@ =~= s1@.take(find_at(s1@, ' ')));
            assert(s2@ =~= s1@.skip(find_at(s1@, ' ') + 1));
        }
        let n2 = s2.unicode_len();
        let i3 = find_char_from(s2, ' ', 0);
        proof {
            assert(s2@.skip(0) =~= s2@);
        }
        if i3 >= n2 {
            return None;
        }
        let t3 = s2.substring_char(0, i3);
        let s3 = s2.substring_char(i3 + 1, n2);
        proof {
            assert(t3@ =~= s2@.take(find_at(s2@, ' ')));
            assert(s3@ =~= s2@.skip(find_at(s2@, ' ') + 1));
        }
        let n3 = s3.unicode_len();
        let i4 = find_char_from(s3, ' ', 0);
        proof {
            assert(s3@.skip(0) =~= s3@);
        }
        if i4 >= n3 {
            return None;
        }
        let t4 = s3.substring_char(0, i4);
        let name = s3.substring_char(i4 + 1, n3);
        proof {
            assert(t4@ =~= s3@.take(find_at(s3@, ' ')));
            assert(name@ =~= s3@.skip(find_at(s3@, ' ') + 1));
        }
        return match (parse_rate_exec(t1), parse_rate_exec(t2), parse_rate_exec(t3),
        parse_rate_exec(t4)) {
            (Some(d), Some(u), Some(dm), Some(um)) => Some(
                Message::Program(name.to_owned(), (d, u, dm, um)),
            ),
            _ => None,
        };
    }
    None
}

} // verus!
