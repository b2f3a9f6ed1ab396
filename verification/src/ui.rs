use vstd::prelude::*;
use vstd::string::*;

use crate::graph::PositionedGraph;

verus! {

/// What the view shows: the loaded graph, or why it could not be loaded.
pub struct Gitv {
    pub graph: Option<PositionedGraph>,
    pub error: Option<String>,
}

/// Events the view reacts to.
#[derive(Debug)]
pub enum Message {
    /// The graph finished loading, or failed with the given message.
    GraphLoaded(Result<PositionedGraph, String>),
}

impl Gitv {
    /// The view before anything has loaded.
    pub fn new() -> (v: Gitv)
        ensures
            v.graph is None,
            v.error is None,
    {
        Gitv { graph: None, error: None }
    }

    /// Records a loaded graph, or the error that stopped the load; the other
    /// field is left as it was.
    pub fn update(&mut self, message: Message)
        ensures
            match message {
                Message::GraphLoaded(Ok(graph)) => final(self).graph == Some(graph)
                    && final(self).error == old(self).error,
                Message::GraphLoaded(Err(e)) => final(self).error == Some(e)
                    && final(self).graph == old(self).graph,
            },
    {
        match message {
            Message::GraphLoaded(Ok(graph)) => self.graph = Some(graph),
            Message::GraphLoaded(Err(e)) => self.error = Some(e),
        }
    }
}

/// Seconds in a day.
pub const SECONDS_PER_DAY: u128 = 86400;

/// Whole days in `secs` seconds, rounded toward zero as integer division does.
pub open spec fn days_of(secs: int) -> int {
    if secs >= 0 {
        secs / (SECONDS_PER_DAY as int)
    } else {
        -((-secs) / (SECONDS_PER_DAY as int))
    }
}

/// The character of a decimal digit.
pub open spec fn digit_char(d: nat) -> char {
    if d == 0 {
        '0'
    } else if d == 1 {
        '1'
    } else if d == 2 {
        '2'
    } else if d == 3 {
        '3'
    } else if d == 4 {
        '4'
    } else if d == 5 {
        '5'
    } else if d == 6 {
        '6'
    } else if d == 7 {
        '7'
    } else if d == 8 {
        '8'
    } else {
        '9'
    }
}

/// The decimal digits of `n`, least significant first.
pub open spec fn digits_of(n: nat) -> Seq<nat>
    decreases n,
{
    if n < 10 {
        seq![n]
    } else {
        seq![n % 10] + digits_of(n / 10)
    }
}

/// Writes digits given least significant first, most significant first.
pub open spec fn render_digits(ds: Seq<nat>) -> Seq<char>
    decreases ds.len(),
{
    if ds.len() == 0 {
        Seq::empty()
    } else {
        render_digits(ds.drop_first()) + seq![digit_char(ds[0])]
    }
}

/// The decimal text of a whole number.
pub open spec fn decimal(n: nat) -> Seq<char> {
    render_digits(digits_of(n))
}

/// The decimal text of an integer, with a minus sign when it is negative.
pub open spec fn signed_decimal(x: int) -> Seq<char> {
    if x < 0 {
        seq!['-'] + decimal((-x) as nat)
    } else {
        decimal(x as nat)
    }
}

/// The text shown for a commit time: `t=` and the day count since the epoch.
pub open spec fn timestamp_text(unix: int) -> Seq<char> {
    seq!['t', '='] + signed_decimal(days_of(unix))
}

/// The text of one decimal digit.
fn digit_text(d: u8) -> (s: &'static str)
    requires
        d < 10,
    ensures
        s@ == seq![digit_char(d as nat)],
{
    proof {
        reveal_strlit("0");
        reveal_strlit("1");
        reveal_strlit("2");
        reveal_strlit("3");
        reveal_strlit("4");
        reveal_strlit("5");
        reveal_strlit("6");
        reveal_strlit("7");
        reveal_strlit("8");
        reveal_strlit("9");
    }
    let s = if d == 0 {
        "0"
    } else if d == 1 {
        "1"
    } else if d == 2 {
        "2"
    } else if d == 3 {
        "3"
    } else if d == 4 {
        "4"
    } else if d == 5 {
        "5"
    } else if d == 6 {
        "6"
    } else if d == 7 {
        "7"
    } else if d == 8 {
        "8"
    } else {
        "9"
    };
    assert(s@ =~= seq![digit_char(d as nat)]);
    s
}

pub open spec fn digit_values(v: Seq<u8>) -> Seq<nat> {
    v.map_values(|d: u8| d as nat)
}

/// Appends the decimal text of `n`.
fn append_decimal(text: &mut String, n: u64)
    ensures
        final(text)@ == old(text)@ + decimal(n as nat),
{
    let mut digits: Vec<u8> = Vec::new();
    let mut m: u64 = n;
    while m >= 10
        invariant
            digit_values(digits@) + digits_of(m as nat) == digits_of(n as nat),
            forall|j: int| 0 <= j < digits@.len() ==> digits@[j] < 10,
        decreases m,
    {
        let ghost before = digits@;
        digits.push((m % 10) as u8);
        assert(digit_values(digits@) =~= digit_values(before) + seq![(m % 10) as nat]);
        assert(digit_values(digits@) + digits_of((m / 10) as nat) =~= digit_values(before) + digits_of(
            m as nat,
        ));
        m = m / 10;
    }
    let ghost before = digits@;
    digits.push(m as u8);
    assert(digit_values(digits@) =~= digit_values(before) + digits_of(m as nat));
    let ghost all = digit_values(digits@);
    let ghost start = text@;
    let mut i: usize = digits.len();
    assert(all.subrange(i as int, all.len() as int) =~= Seq::<nat>::empty());
    while i > 0
        invariant
            i <= digits@.len(),
            all == digit_values(digits@),
            all.len() == digits@.len(),
            forall|j: int| 0 <= j < digits@.len() ==> digits@[j] < 10,
            text@ == start + render_digits(all.subrange(i as int, all.len() as int)),
        decreases i,
    {
        i = i - 1;
        text.append(digit_text(digits[i]));
        let ghost rest = all.subrange(i as int, all.len() as int);
        assert(rest.drop_first() =~= all.subrange(i + 1, all.len() as int));
        assert(text@ =~= start + render_digits(rest));
    }
    assert(all.subrange(0, all.len() as int) =~= all);
}

/// The text shown for a commit time: whole days since the unix epoch,
/// rounded toward zero, as `t=<days>`.
pub fn format_timestamp(unix: i64) -> (text: String)
    ensures
        text@ == timestamp_text(unix as int),
{
    let secs = unix as i128;
    let magnitude: u128 = if secs < 0 {
        (-secs) as u128
    } else {
        secs as u128
    };
    let whole: u128 = magnitude / SECONDS_PER_DAY;
    assert(whole <= u64::MAX) by (nonlinear_arith)
        requires
            magnitude <= 0x8000_0000_0000_0000,
            whole == magnitude / 86400,
    ;
    let mut text = String::from_str("t=");
    proof {
        reveal_strlit("t=");
        reveal_strlit("-");
    }
    if secs < 0 && whole > 0 {
        text.append("-");
    }
    append_decimal(&mut text, whole as u64);
    assert(text@ =~= timestamp_text(unix as int));
    text
}

/// The value of a decimal digit character (other characters read as 0).
pub open spec fn digit_value(c: char) -> nat {
    if '0' <= c && c <= '9' {
        (c as int - '0' as int) as nat
    } else {
        0
    }
}

/// The number a decimal text reads as, most significant digit first.
pub open spec fn read_decimal(s: Seq<char>) -> nat
    decreases s.len(),
{
    if s.len() == 0 {
        0
    } else {
        read_decimal(s.drop_last()) * 10 + digit_value(s.last())
    }
}

proof fn lemma_render_reads_back(ds: Seq<nat>)
    requires
        forall|k: int| 0 <= k < ds.len() ==> ds[k] < 10,
    ensures
        render_digits(ds).len() == ds.len(),
        forall|k: int| 0 <= k < ds.len() ==> '0' <= #[trigger] render_digits(ds)[k] <= '9',
        read_decimal(render_digits(ds)) == value_lsf(ds),
    decreases ds.len(),
{
    if ds.len() > 0 {
        let rest = ds.drop_first();
        lemma_render_reads_back(rest);
        let r = render_digits(ds);
        assert(r.drop_last() =~= render_digits(rest));
        assert(r.last() == digit_char(ds[0]));
        assert(digit_value(digit_char(ds[0])) == ds[0]);
        assert forall|k: int| 0 <= k < ds.len() implies '0' <= #[trigger] r[k] <= '9' by {
            if k < rest.len() {
                assert(r[k] == render_digits(rest)[k]);
            }
        }
    }
}

/// The value of digits given least significant first.
pub open spec fn value_lsf(ds: Seq<nat>) -> nat
    decreases ds.len(),
{
    if ds.len() == 0 {
        0
    } else {
        ds[0] + 10 * value_lsf(ds.drop_first())
    }
}

proof fn lemma_digits_of(n: nat)
    ensures
        forall|k: int| 0 <= k < digits_of(n).len() ==> #[trigger] digits_of(n)[k] < 10,
        value_lsf(digits_of(n)) == n,
        digits_of(n).len() >= 1,
        n > 0 ==> digits_of(n).last() > 0,
    decreases n,
{
    if n >= 10 {
        lemma_digits_of(n / 10);
        let ds = digits_of(n);
        assert(ds.drop_first() =~= digits_of(n / 10));
        assert(ds.last() == digits_of(n / 10).last());
        assert forall|k: int| 0 <= k < ds.len() implies #[trigger] ds[k] < 10 by {
            if k > 0 {
                assert(ds[k] == digits_of(n / 10)[k - 1]);
            }
        }
        assert(value_lsf(ds.drop_first()) == n / 10);
        assert(ds[0] == n % 10);
        assert(value_lsf(ds) == ds[0] + 10 * value_lsf(ds.drop_first()));
        assert(n % 10 + 10 * (n / 10) == n) by (nonlinear_arith);
    } else {
        assert(digits_of(n).drop_first() =~= Seq::<nat>::empty());
        assert(value_lsf(Seq::<nat>::empty()) == 0);
        assert(value_lsf(digits_of(n)) == digits_of(n)[0] + 10 * value_lsf(digits_of(n).drop_first()));
    }
}

/// The decimal text of a whole number is made of digits, has no leading zero
/// (but for 0 itself), and reads back as the number.
pub proof fn law_decimal_reads_back(n: nat)
    ensures
        decimal(n).len() >= 1,
        forall|k: int| 0 <= k < decimal(n).len() ==> '0' <= #[trigger] decimal(n)[k] <= '9',
        n > 0 ==> decimal(n)[0] != '0',
        read_decimal(decimal(n)) == n,
{
    lemma_digits_of(n);
    let ds = digits_of(n);
    lemma_render_reads_back(ds);
    if n > 0 {
        lemma_render_first(ds);
        assert(digit_char(ds.last()) != '0');
    }
}

proof fn lemma_render_first(ds: Seq<nat>)
    requires
        ds.len() >= 1,
    ensures
        render_digits(ds).len() == ds.len(),
        render_digits(ds)[0] == digit_char(ds.last()),
    decreases ds.len(),
{
    if ds.len() > 1 {
        lemma_render_first(ds.drop_first());
        assert(ds.drop_first().last() == ds.last());
    } else {
        assert(ds.drop_first() =~= Seq::<nat>::empty());
        assert(render_digits(ds.drop_first()) =~= Seq::<char>::empty());
    }
}

/// The day count shown for a time is the number of whole days in it, rounded
/// toward zero: it has the sign of the time, and less than one day is left over.
pub proof fn law_days_round_toward_zero(unix: int)
    ensures
        unix >= 0 ==> days_of(unix) >= 0 && days_of(unix) * 86400 <= unix < (days_of(unix) + 1) * 86400,
        unix < 0 ==> days_of(unix) <= 0 && (days_of(unix) - 1) * 86400 < unix <= days_of(unix) * 86400,
{
    if unix >= 0 {
        let d = unix / 86400;
        assert(d * 86400 <= unix < (d + 1) * 86400) by (nonlinear_arith)
            requires
                unix >= 0,
                d == unix / 86400,
        ;
    } else {
        let m = -unix;
        let d = m / 86400;
        assert(d * 86400 <= m < (d + 1) * 86400) by (nonlinear_arith)
            requires
                m > 0,
                d == m / 86400,
        ;
    }
}

/// The text shown for a commit time: `t=`, a minus sign exactly when the time
/// is at least a whole day before the epoch, then digits that read as the
/// number of whole days between the epoch and the time.
pub proof fn law_timestamp_text(unix: int)
    ensures
        ({
            let text = timestamp_text(unix);
            let negative = unix <= -86400;
            let digits = text.subrange(if negative { 3int } else { 2int }, text.len() as int);
            let magnitude = if unix < 0 { -unix } else { unix };
            &&& text.len() >= 3
            &&& text[0] == 't' && text[1] == '='
            &&& (text[2] == '-') == negative
            &&& forall|k: int| 0 <= k < digits.len() ==> '0' <= #[trigger] digits[k] <= '9'
            &&& read_decimal(digits) * 86400 <= magnitude < (read_decimal(digits) + 1) * 86400
        }),
{
    let d = days_of(unix);
    law_days_round_toward_zero(unix);
    let m: nat = if d < 0 { (-d) as nat } else { d as nat };
    law_decimal_reads_back(m);
    let text = timestamp_text(unix);
    let negative = unix <= -86400;
    if unix < 0 {
        assert(d < 0 <==> negative) by (nonlinear_arith)
            requires
                unix < 0,
                d <= 0,
                (d - 1) * 86400 < unix <= d * 86400,
                negative == (unix <= -86400),
        ;
    }
    if d < 0 {
        assert(text =~= seq!['t', '=', '-'] + decimal(m));
        assert(text.subrange(3, text.len() as int) =~= decimal(m));
    } else {
        assert(text =~= seq!['t', '='] + decimal(m));
        assert(text.subrange(2, text.len() as int) =~= decimal(m));
        assert(text[2] == decimal(m)[0]);
    }
    assert(m * 86400 <= (if unix < 0 { -unix } else { unix }) < (m + 1) * 86400) by (nonlinear_arith)
        requires
            unix >= 0 ==> d >= 0 && d * 86400 <= unix < (d + 1) * 86400,
            unix < 0 ==> d <= 0 && (d - 1) * 86400 < unix <= d * 86400,
            m == (if d < 0 { -d } else { d }),
    ;
}

} // verus!
