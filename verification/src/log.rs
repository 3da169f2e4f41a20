//! The lines of the click log and of the frame log.
use crate::clock::{elapsed_ms, milliseconds};
use crate::text::{
    decimal, is_digit, law_decimal_reads_back, law_signed_decimal_reads_back, number, push_decimal,
    push_signed, signed_decimal, signed_number,
};
use vstd::prelude::*;

verus! {

/// The frame statistics that the swap chain reports after a present.
#[derive(Clone, Copy)]
pub struct FrameStats {
    /// How many presents have been queued.
    pub present_count: u32,
    /// The counter at the last vertical blank.
    pub sync_qpc_time: i64,
    /// The refresh at which the present reached the screen.
    pub present_refresh_count: u32,
}

/// The line for click number `seq`: its number, its counter value and its
/// milliseconds.
pub open spec fn click_row(qpc_ts: nat, seq: nat, freq: nat) -> Seq<char> {
    decimal(seq) + ","@ + decimal(qpc_ts) + ","@ + decimal(milliseconds(qpc_ts, freq)) + "\n"@
}

/// The line for one presented frame.
pub open spec fn frame_row(own_index: nat, t_present: nat, stats: FrameStats) -> Seq<char> {
    decimal(own_index) + ","@ + decimal(t_present) + ","@ + decimal(stats.present_count as nat)
        + ","@ + signed_decimal(stats.sync_qpc_time as int) + ","@ + decimal(
        stats.present_refresh_count as nat,
    ) + "\n"@
}

/// The line for one presented frame, of which the swap chain may have reported
/// nothing: its columns are empty then.
pub open spec fn frame_line(own_index: nat, t_present: nat, stats: Option<FrameStats>) -> Seq<
    char,
> {
    match stats {
        Some(stats) => frame_row(own_index, t_present, stats),
        None => decimal(own_index) + ","@ + decimal(t_present) + ",,,\n"@,
    }
}

/// The line that opens the click log.
pub fn clicks_header() -> (line: &'static str)
    ensures
        line@ == "seq,qpc,ms_epoch\n"@,
{
    "seq,qpc,ms_epoch\n"
}

/// The line that opens the frame log.
pub fn frames_header() -> (line: &'static str)
    ensures
        line@
            == "own_index,qpc_t_present,dxgi_present_count,sync_qpc_time,present_refresh_count\n"@,
{
    "own_index,qpc_t_present,dxgi_present_count,sync_qpc_time,present_refresh_count\n"
}

/// The line of the click log for click number `seq`, seen at counter value
/// `qpc_ts` of a counter that runs at `freq` ticks a second.
pub fn log_click(qpc_ts: u64, seq: u32, freq: u64) -> (line: String)
    ensures
        line@ == click_row(qpc_ts as nat, seq as nat, freq as nat),
{
    let mut line: String = String::new();
    push_decimal(&mut line, seq as u64);
    line.append(",");
    push_decimal(&mut line, qpc_ts);
    line.append(",");
    push_decimal(&mut line, elapsed_ms(qpc_ts, freq));
    line.append("\n");
    line
}

/// The line of the frame log for the frame with index `own_index`, presented at
/// counter value `t_present`.
pub fn log_frame(own_index: u32, t_present: u64, stats: &FrameStats) -> (line: String)
    ensures
        line@ == frame_row(own_index as nat, t_present as nat, *stats),
{
    let mut line: String = String::new();
    push_decimal(&mut line, own_index as u64);
    line.append(",");
    push_decimal(&mut line, t_present);
    line.append(",");
    push_decimal(&mut line, stats.present_count as u64);
    line.append(",");
    push_signed(&mut line, stats.sync_qpc_time);
    line.append(",");
    push_decimal(&mut line, stats.present_refresh_count as u64);
    line.append("\n");
    line
}

/// The line of the frame log for the frame with index `own_index`, presented at
/// counter value `t_present`, with or without statistics.
pub fn log_present(own_index: u32, t_present: u64, stats: Option<FrameStats>) -> (line: String)
    ensures
        line@ == frame_line(own_index as nat, t_present as nat, stats),
{
    match stats {
        Some(stats) => log_frame(own_index, t_present, &stats),
        None => {
            let mut line: String = String::new();
            push_decimal(&mut line, own_index as u64);
            line.append(",");
            push_decimal(&mut line, t_present);
            line.append(",,,\n");
            line
        },
    }
}

/// Whether a text is free of commas and line ends.
spec fn is_field(text: Seq<char>) -> bool {
    forall|i: int| 0 <= i < text.len() ==> #[trigger] text[i] != ',' && text[i] != '\n'
}

/// What stands before the first separator of a line is determined by the line,
/// and so is what follows it.
proof fn lemma_first_field(a: Seq<char>, x: Seq<char>, b: Seq<char>, y: Seq<char>, separator: char)
    requires
        is_field(a),
        is_field(b),
        separator == ',' || separator == '\n',
        a + (seq![separator] + x) == b + (seq![separator] + y),
    ensures
        a == b,
        x == y,
{
    let left = a + (seq![separator] + x);
    let right = b + (seq![separator] + y);
    if a.len() < b.len() {
        assert(left[a.len() as int] == separator);
        assert(right[a.len() as int] == b[a.len() as int]);
        assert(false);
    } else if b.len() < a.len() {
        assert(right[b.len() as int] == separator);
        assert(left[b.len() as int] == a[b.len() as int]);
        assert(false);
    }
    assert forall|i: int| 0 <= i < a.len() implies a[i] == b[i] by {
        assert(left[i] == a[i]);
        assert(right[i] == b[i]);
    }
    assert(a =~= b);
    assert(left.len() == a.len() + 1 + x.len());
    assert(right.len() == b.len() + 1 + y.len());
    assert forall|i: int| 0 <= i < x.len() implies x[i] == y[i] by {
        assert(left[a.len() + 1 + i] == x[i]);
        assert(right[b.len() + 1 + i] == y[i]);
    }
    assert(x =~= y);
}

proof fn lemma_decimal_is_field(n: nat)
    ensures
        is_field(decimal(n)),
{
    law_decimal_reads_back(n);
    assert forall|i: int| 0 <= i < decimal(n).len() implies #[trigger] decimal(n)[i] != ','
        && decimal(n)[i] != '\n' by {
        assert(is_digit(decimal(n)[i]));
    }
}

proof fn lemma_signed_is_field(n: int)
    ensures
        is_field(signed_decimal(n)),
{
    law_signed_decimal_reads_back(n);
    assert forall|i: int| 0 <= i < signed_decimal(n).len() implies #[trigger] signed_decimal(n)[i]
        != ',' && signed_decimal(n)[i] != '\n' by {
        assert(is_digit(signed_decimal(n)[i]) || signed_decimal(n)[i] == '-');
    }
}

/// A line of the click log tells which click it is, when it was and how many
/// milliseconds that is: two lines that are the same tell of the same.
pub proof fn law_click_row_is_unambiguous(
    qpc_a: nat,
    seq_a: nat,
    freq_a: nat,
    qpc_b: nat,
    seq_b: nat,
    freq_b: nat,
)
    requires
        click_row(qpc_a, seq_a, freq_a) == click_row(qpc_b, seq_b, freq_b),
    ensures
        seq_a == seq_b,
        qpc_a == qpc_b,
        milliseconds(qpc_a, freq_a) == milliseconds(qpc_b, freq_b),
{
    let ms_a = milliseconds(qpc_a, freq_a);
    let ms_b = milliseconds(qpc_b, freq_b);
    reveal_strlit(",");
    reveal_strlit("\n");
    let none = Seq::<char>::empty();
    let end_a = field_then(decimal(ms_a), '\n', none);
    let end_b = field_then(decimal(ms_b), '\n', none);
    let rest_a = field_then(decimal(qpc_a), ',', end_a);
    let rest_b = field_then(decimal(qpc_b), ',', end_b);
    assert(click_row(qpc_a, seq_a, freq_a) =~= field_then(decimal(seq_a), ',', rest_a));
    assert(click_row(qpc_b, seq_b, freq_b) =~= field_then(decimal(seq_b), ',', rest_b));
    lemma_decimal_is_field(seq_a);
    lemma_decimal_is_field(seq_b);
    lemma_decimal_is_field(qpc_a);
    lemma_decimal_is_field(qpc_b);
    lemma_decimal_is_field(ms_a);
    lemma_decimal_is_field(ms_b);
    lemma_first_field(decimal(seq_a), rest_a, decimal(seq_b), rest_b, ',');
    lemma_first_field(decimal(qpc_a), end_a, decimal(qpc_b), end_b, ',');
    lemma_first_field(decimal(ms_a), none, decimal(ms_b), none, '\n');
    law_decimal_reads_back(seq_a);
    law_decimal_reads_back(seq_b);
    law_decimal_reads_back(qpc_a);
    law_decimal_reads_back(qpc_b);
    law_decimal_reads_back(ms_a);
    law_decimal_reads_back(ms_b);
}

/// A field and what follows it on the line.
spec fn field_then(field: Seq<char>, separator: char, rest: Seq<char>) -> Seq<char> {
    field + (seq![separator] + rest)
}

/// What a line of the frame log holds after the time of the present.
spec fn stats_fields(stats: FrameStats) -> Seq<char> {
    field_then(
        decimal(stats.present_count as nat),
        ',',
        field_then(
            signed_decimal(stats.sync_qpc_time as int),
            ',',
            field_then(decimal(stats.present_refresh_count as nat), '\n', Seq::empty()),
        ),
    )
}

/// The same where the swap chain may have reported nothing.
spec fn reported_fields(stats: Option<FrameStats>) -> Seq<char> {
    match stats {
        Some(stats) => stats_fields(stats),
        None => field_then(
            Seq::empty(),
            ',',
            field_then(Seq::empty(), ',', field_then(Seq::empty(), '\n', Seq::empty())),
        ),
    }
}

/// Fields that are put together from the left are the same line as fields that
/// are put together from the right.
proof fn lemma_put_before(before: Seq<char>, field: Seq<char>, separator: char, rest: Seq<char>)
    ensures
        before + field + seq![separator] + rest == before + field_then(field, separator, rest),
{
    assert(before + field + seq![separator] + rest =~= before + field_then(field, separator, rest));
}

proof fn lemma_frame_row_fields(index: nat, t: nat, stats: FrameStats)
    ensures
        frame_row(index, t, stats) == field_then(
            decimal(index),
            ',',
            field_then(decimal(t), ',', stats_fields(stats)),
        ),
{
    reveal_strlit(",");
    reveal_strlit("\n");
    assert(","@ =~= seq![',']);
    assert("\n"@ =~= seq!['\n']);
    let none = Seq::<char>::empty();
    let count = decimal(stats.present_count as nat);
    let sync = signed_decimal(stats.sync_qpc_time as int);
    let refresh = decimal(stats.present_refresh_count as nat);
    let start = none + decimal(index) + seq![','];
    let start_t = start + decimal(t) + seq![','];
    let start_count = start_t + count + seq![','];
    let start_sync = start_count + sync + seq![','];
    assert(none + decimal(index) =~= decimal(index));
    assert(frame_row(index, t, stats) =~= start_sync + refresh + seq!['\n'] + none);
    lemma_put_before(start_sync, refresh, '\n', none);
    lemma_put_before(start_count, sync, ',', field_then(refresh, '\n', none));
    lemma_put_before(
        start_t,
        count,
        ',',
        field_then(sync, ',', field_then(refresh, '\n', none)),
    );
    lemma_put_before(start, decimal(t), ',', stats_fields(stats));
    let all = field_then(decimal(t), ',', stats_fields(stats));
    lemma_put_before(none, decimal(index), ',', all);
    assert(none + field_then(decimal(index), ',', all) =~= field_then(decimal(index), ',', all));
}

/// What the swap chain reported can be read from its fields.
proof fn lemma_stats_fields(a: FrameStats, b: FrameStats)
    requires
        stats_fields(a) == stats_fields(b),
    ensures
        a == b,
{
    let none = Seq::<char>::empty();
    let last_a = field_then(decimal(a.present_refresh_count as nat), '\n', none);
    let last_b = field_then(decimal(b.present_refresh_count as nat), '\n', none);
    let sync_a = signed_decimal(a.sync_qpc_time as int);
    let sync_b = signed_decimal(b.sync_qpc_time as int);
    lemma_decimal_is_field(a.present_count as nat);
    lemma_decimal_is_field(b.present_count as nat);
    lemma_signed_is_field(a.sync_qpc_time as int);
    lemma_signed_is_field(b.sync_qpc_time as int);
    lemma_decimal_is_field(a.present_refresh_count as nat);
    lemma_decimal_is_field(b.present_refresh_count as nat);
    lemma_first_field(
        decimal(a.present_count as nat),
        field_then(sync_a, ',', last_a),
        decimal(b.present_count as nat),
        field_then(sync_b, ',', last_b),
        ',',
    );
    lemma_first_field(sync_a, last_a, sync_b, last_b, ',');
    lemma_first_field(
        decimal(a.present_refresh_count as nat),
        none,
        decimal(b.present_refresh_count as nat),
        none,
        '\n',
    );
    law_decimal_reads_back(a.present_count as nat);
    law_decimal_reads_back(b.present_count as nat);
    law_signed_decimal_reads_back(a.sync_qpc_time as int);
    law_signed_decimal_reads_back(b.sync_qpc_time as int);
    law_decimal_reads_back(a.present_refresh_count as nat);
    law_decimal_reads_back(b.present_refresh_count as nat);
}

proof fn lemma_frame_line_fields(index: nat, t: nat, stats: Option<FrameStats>)
    ensures
        frame_line(index, t, stats) == field_then(
            decimal(index),
            ',',
            field_then(decimal(t), ',', reported_fields(stats)),
        ),
{
    match stats {
        Some(stats) => {
            lemma_frame_row_fields(index, t, stats);
        },
        None => {
            reveal_strlit(",");
            reveal_strlit(",,,\n");
            let none = reported_fields(stats);
            assert(none =~= seq![',', ',', '\n']);
            assert(",,,\n"@ =~= seq![','] + none);
            assert(frame_line(index, t, stats) =~= field_then(
                decimal(index),
                ',',
                field_then(decimal(t), ',', none),
            ));
        },
    }
}

/// What the swap chain reported, if anything, can be read from its fields.
proof fn lemma_reported_fields(a: Option<FrameStats>, b: Option<FrameStats>)
    requires
        reported_fields(a) == reported_fields(b),
    ensures
        a == b,
{
    match (a, b) {
        (Some(x), Some(y)) => {
            lemma_stats_fields(x, y);
        },
        (Some(x), None) => {
            lemma_fields_not_empty(x);
        },
        (None, Some(y)) => {
            lemma_fields_not_empty(y);
        },
        (None, None) => {},
    }
}

/// Statistics do not begin with an empty field.
proof fn lemma_fields_not_empty(stats: FrameStats)
    ensures
        stats_fields(stats)[0] != ',',
        reported_fields(None)[0] == ',',
{
    let count = decimal(stats.present_count as nat);
    law_decimal_reads_back(stats.present_count as nat);
    assert(stats_fields(stats)[0] == count[0]);
    assert(is_digit(count[0]));
}

/// A line of the frame log tells which frame it is, when it was presented and
/// what the swap chain reported of it, if anything: two lines that are the same
/// tell of the same.
pub proof fn law_frame_line_is_unambiguous(
    index_a: nat,
    t_a: nat,
    stats_a: Option<FrameStats>,
    index_b: nat,
    t_b: nat,
    stats_b: Option<FrameStats>,
)
    requires
        frame_line(index_a, t_a, stats_a) == frame_line(index_b, t_b, stats_b),
    ensures
        index_a == index_b,
        t_a == t_b,
        stats_a == stats_b,
{
    let rest_a = reported_fields(stats_a);
    let rest_b = reported_fields(stats_b);
    lemma_frame_line_fields(index_a, t_a, stats_a);
    lemma_frame_line_fields(index_b, t_b, stats_b);
    lemma_decimal_is_field(index_a);
    lemma_decimal_is_field(index_b);
    lemma_decimal_is_field(t_a);
    lemma_decimal_is_field(t_b);
    lemma_first_field(
        decimal(index_a),
        field_then(decimal(t_a), ',', rest_a),
        decimal(index_b),
        field_then(decimal(t_b), ',', rest_b),
        ',',
    );
    lemma_first_field(decimal(t_a), rest_a, decimal(t_b), rest_b, ',');
    lemma_reported_fields(stats_a, stats_b);
    law_decimal_reads_back(index_a);
    law_decimal_reads_back(index_b);
    law_decimal_reads_back(t_a);
    law_decimal_reads_back(t_b);
}

/// Split at its commas, of which it has two, a line of the click log has three
/// fields: in the order of the header they read as the number of the click, its
/// counter value and its milliseconds.
pub proof fn law_click_row_reads_back(qpc_ts: nat, seq: nat, freq: nat) -> (commas: (int, int))
    ensures
        ({
            let row = click_row(qpc_ts, seq, freq);
            let (c1, c2) = commas;
            let end = row.len() - 1;
            &&& 0 <= c1 < c2 < end
            &&& forall|i: int|
                0 <= i < row.len() ==> (#[trigger] row[i] == ',' <==> i == c1 || i == c2) && (row[i]
                    == '\n' <==> i == end)
            &&& number(row.subrange(0, c1)) == seq
            &&& row.subrange(0, c1) == decimal(seq)
            &&& number(row.subrange(c1 + 1, c2)) == qpc_ts
            &&& row.subrange(c1 + 1, c2) == decimal(qpc_ts)
            &&& number(row.subrange(c2 + 1, end)) == milliseconds(qpc_ts, freq)
            &&& row.subrange(c2 + 1, end) == decimal(milliseconds(qpc_ts, freq))
        }),
{
    let ms = milliseconds(qpc_ts, freq);
    let a = decimal(seq);
    let b = decimal(qpc_ts);
    let c = decimal(ms);
    let row = click_row(qpc_ts, seq, freq);
    reveal_strlit(",");
    reveal_strlit("\n");
    lemma_decimal_is_field(seq);
    lemma_decimal_is_field(qpc_ts);
    lemma_decimal_is_field(ms);
    law_decimal_reads_back(seq);
    law_decimal_reads_back(qpc_ts);
    law_decimal_reads_back(ms);
    let c1 = a.len() as int;
    let c2 = c1 + 1 + b.len();
    let end = row.len() - 1;
    assert(end == c2 + 1 + c.len());
    assert(row.subrange(0, c1) =~= a);
    assert(row.subrange(c1 + 1, c2) =~= b);
    assert(row.subrange(c2 + 1, end) =~= c);
    assert forall|i: int| 0 <= i < row.len() implies (#[trigger] row[i] == ',' <==> i == c1 || i
        == c2) && (row[i] == '\n' <==> i == end) by {
        if i < c1 {
            assert(row[i] == a[i]);
        } else if c1 < i < c2 {
            assert(row[i] == b[i - (c1 + 1)]);
        } else if c2 < i < end {
            assert(row[i] == c[i - (c2 + 1)]);
        }
    }
    (c1, c2)
}

/// The places of the commas in a line of five fields.
proof fn lemma_five_fields(
    row: Seq<char>,
    f1: Seq<char>,
    f2: Seq<char>,
    f3: Seq<char>,
    f4: Seq<char>,
    f5: Seq<char>,
)
    requires
        is_field(f1),
        is_field(f2),
        is_field(f3),
        is_field(f4),
        is_field(f5),
        row == field_then(
            f1,
            ',',
            field_then(
                f2,
                ',',
                field_then(f3, ',', field_then(f4, ',', field_then(f5, '\n', Seq::empty()))),
            ),
        ),
    ensures
        ({
            let c1 = f1.len() as int;
            let c2 = c1 + 1 + f2.len();
            let c3 = c2 + 1 + f3.len();
            let c4 = c3 + 1 + f4.len();
            let end = c4 + 1 + f5.len();
            &&& row.len() == end + 1
            &&& row.subrange(0, c1) == f1
            &&& row.subrange(c1 + 1, c2) == f2
            &&& row.subrange(c2 + 1, c3) == f3
            &&& row.subrange(c3 + 1, c4) == f4
            &&& row.subrange(c4 + 1, end) == f5
            &&& forall|i: int|
                0 <= i < row.len() ==> (#[trigger] row[i] == ',' <==> i == c1 || i == c2 || i == c3
                    || i == c4) && (row[i] == '\n' <==> i == end)
        }),
{
    let c1 = f1.len() as int;
    let c2 = c1 + 1 + f2.len();
    let c3 = c2 + 1 + f3.len();
    let c4 = c3 + 1 + f4.len();
    let end = c4 + 1 + f5.len();
    assert(row.subrange(0, c1) =~= f1);
    assert(row.subrange(c1 + 1, c2) =~= f2);
    assert(row.subrange(c2 + 1, c3) =~= f3);
    assert(row.subrange(c3 + 1, c4) =~= f4);
    assert(row.subrange(c4 + 1, end) =~= f5);
    assert forall|i: int| 0 <= i < row.len() implies (#[trigger] row[i] == ',' <==> i == c1 || i
        == c2 || i == c3 || i == c4) && (row[i] == '\n' <==> i == end) by {
        if i < c1 {
            assert(row[i] == f1[i]);
        } else if c1 < i < c2 {
            assert(row[i] == f2[i - (c1 + 1)]);
        } else if c2 < i < c3 {
            assert(row[i] == f3[i - (c2 + 1)]);
        } else if c3 < i < c4 {
            assert(row[i] == f4[i - (c3 + 1)]);
        } else if c4 < i < end {
            assert(row[i] == f5[i - (c4 + 1)]);
        }
    }
}

/// Split at its commas, of which it has four, a line of the frame log has five
/// fields: in the order of the header they read as the index of the frame, the
/// counter before its present, the present count, the counter at the vertical
/// blank and the refresh count. The last three are empty where the swap chain
/// reported nothing.
pub proof fn law_frame_line_reads_back(
    own_index: nat,
    t_present: nat,
    stats: Option<FrameStats>,
) -> (commas: (int, int, int, int))
    ensures
        ({
            let row = frame_line(own_index, t_present, stats);
            let (c1, c2, c3, c4) = commas;
            let end = row.len() - 1;
            &&& 0 <= c1 < c2 < c3 < c4 < end
            &&& forall|i: int|
                0 <= i < row.len() ==> (#[trigger] row[i] == ',' <==> i == c1 || i == c2 || i == c3
                    || i == c4) && (row[i] == '\n' <==> i == end)
            &&& number(row.subrange(0, c1)) == own_index
            &&& row.subrange(0, c1) == decimal(own_index)
            &&& number(row.subrange(c1 + 1, c2)) == t_present
            &&& row.subrange(c1 + 1, c2) == decimal(t_present)
            &&& match stats {
                Some(stats) => {
                    &&& number(row.subrange(c2 + 1, c3)) == stats.present_count
                    &&& row.subrange(c2 + 1, c3) == decimal(stats.present_count as nat)
                    &&& signed_number(row.subrange(c3 + 1, c4)) == stats.sync_qpc_time
                    &&& row.subrange(c3 + 1, c4) == signed_decimal(stats.sync_qpc_time as int)
                    &&& number(row.subrange(c4 + 1, end)) == stats.present_refresh_count
                    &&& row.subrange(c4 + 1, end) == decimal(stats.present_refresh_count as nat)
                },
                None => c3 == c2 + 1 && c4 == c3 + 1 && end == c4 + 1,
            }
        }),
{
    let row = frame_line(own_index, t_present, stats);
    let none = Seq::<char>::empty();
    let f1 = decimal(own_index);
    let f2 = decimal(t_present);
    let (f3, f4, f5) = match stats {
        Some(stats) => (
            decimal(stats.present_count as nat),
            signed_decimal(stats.sync_qpc_time as int),
            decimal(stats.present_refresh_count as nat),
        ),
        None => (none, none, none),
    };
    lemma_frame_line_fields(own_index, t_present, stats);
    lemma_decimal_is_field(own_index);
    lemma_decimal_is_field(t_present);
    law_decimal_reads_back(own_index);
    law_decimal_reads_back(t_present);
    if let Some(stats) = stats {
        lemma_decimal_is_field(stats.present_count as nat);
        lemma_signed_is_field(stats.sync_qpc_time as int);
        lemma_decimal_is_field(stats.present_refresh_count as nat);
        law_decimal_reads_back(stats.present_count as nat);
        law_signed_decimal_reads_back(stats.sync_qpc_time as int);
        law_decimal_reads_back(stats.present_refresh_count as nat);
    }
    lemma_five_fields(row, f1, f2, f3, f4, f5);
    let c1 = f1.len() as int;
    let c2 = c1 + 1 + f2.len();
    let c3 = c2 + 1 + f3.len();
    let c4 = c3 + 1 + f4.len();
    (c1, c2, c3, c4)
}

/// A frame with statistics has the same line however it is written.
pub proof fn law_frame_row_is_frame_line(own_index: nat, t_present: nat, stats: FrameStats)
    ensures
        frame_row(own_index, t_present, stats) == frame_line(own_index, t_present, Some(stats)),
{
}

} // verus!
