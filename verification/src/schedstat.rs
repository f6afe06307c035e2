//! Per-CPU scheduler statistics: the `schedstat` parser and the Prometheus
//! exposition renderer.

use vstd::prelude::*;

use crate::text::{
    char_count, dec_str, digits_value, is_usize_numeral, lemma_char_count_absent,
    lemma_char_count_append, lemma_dec_str_no_newline, lemma_split_on_step, parse_usize_range,
    scan_for, split_on, strip_cr, usize_to_string,
};

verus! {

/// Counters reported for one logical CPU: cumulative running time and
/// waiting time in clock ticks, and the number of timeslices run.
#[derive(Clone, Copy, PartialEq, Eq, Structural, Debug)]
pub struct Stat {
    pub total_running: usize,
    pub total_waiting: usize,
    pub timeslices: usize,
}

/// Process-wide constants read once from the operating environment at
/// startup and held immutable: the clock-tick rate that converts tick counts
/// into seconds, and the number of online logical processors.
#[derive(Clone, Copy, PartialEq, Eq, Structural, Debug)]
pub struct SystemConfig {
    pub clk_tck: usize,
    pub nprocessors: usize,
}

/// The number of online logical processors recorded at startup. It need not
/// match the number of records any one scrape parses: the statistics file is
/// the source of truth for how many CPUs are reported.
pub fn processor_count(config: &SystemConfig) -> (n: usize)
    ensures
        n == config.nprocessors,
{
    config.nprocessors
}

/// Converts a tick count into whole seconds, truncating the remainder.
pub fn jiffies_to_seconds(jiffies: usize, clk_tck: usize) -> (seconds: usize)
    requires
        clk_tck > 0,
    ensures
        seconds == jiffies as int / clk_tck as int,
{
    jiffies / clk_tck
}

/// The error reported when a CPU-prefixed line of the statistics file does
/// not match the documented layout: a field count other than ten, or a
/// counter field that is not a decimal numeral fitting in `usize`.
#[derive(Clone, Copy, PartialEq, Eq, Structural, Debug)]
pub struct FormatViolation;

/// Whether a line is a candidate CPU record: it starts with the literal
/// prefix `cpu`.
pub open spec fn is_cpu_line(l: Seq<char>) -> bool {
    l.len() >= 3 && l[0] == 'c' && l[1] == 'p' && l[2] == 'u'
}

/// The record read from one CPU line, when the line has exactly ten
/// space-separated fields and fields seven to nine are decimal numerals
/// fitting in `usize`; nothing otherwise.
pub open spec fn spec_parse_cpu(line: Seq<char>) -> Option<Stat> {
    let fields = split_on(line, ' ');
    if fields.len() == 10 && is_usize_numeral(fields[7]) && is_usize_numeral(fields[8])
        && is_usize_numeral(fields[9]) {
        Some(
            Stat {
                total_running: digits_value(fields[7]) as usize,
                total_waiting: digits_value(fields[8]) as usize,
                timeslices: digits_value(fields[9]) as usize,
            },
        )
    } else {
        None
    }
}

/// Shears one trailing carriage return off every line of a sequence.
pub open spec fn strip_all(ls: Seq<Seq<char>>) -> Seq<Seq<char>> {
    ls.map_values(|l: Seq<char>| strip_cr(l))
}

/// The lines of the input: split at every newline, each line shorn of one
/// trailing carriage return.
pub open spec fn spec_lines(s: Seq<char>) -> Seq<Seq<char>> {
    strip_all(split_on(s, '\n'))
}

/// The records of a line sequence, in order of appearance: lines without the
/// `cpu` prefix are skipped, and one malformed CPU line spoils the whole
/// parse.
pub open spec fn parse_lines(ls: Seq<Seq<char>>) -> Option<Seq<Stat>>
    decreases ls.len(),
{
    if ls.len() == 0 {
        Some(Seq::empty())
    } else {
        let init = parse_lines(ls.drop_last());
        let l = ls.last();
        if !is_cpu_line(l) {
            init
        } else {
            match (init, spec_parse_cpu(l)) {
                (Some(sts), Some(st)) => Some(sts.push(st)),
                _ => None,
            }
        }
    }
}

/// The parse of a whole statistics file.
pub open spec fn spec_parse(s: Seq<char>) -> Option<Seq<Stat>> {
    parse_lines(spec_lines(s))
}

/// A failed parse of any line sequence spoils every extension of it, and a
/// successful parse of a concatenation is the concatenation of the parses.
pub proof fn lemma_parse_lines_append(a: Seq<Seq<char>>, b: Seq<Seq<char>>)
    ensures
        parse_lines(a + b) == (match (parse_lines(a), parse_lines(b)) {
            (Some(x), Some(y)) => Some(x + y),
            _ => None::<Seq<Stat>>,
        }),
    decreases b.len(),
{
    if b.len() == 0 {
        assert(a + b =~= a);
        if parse_lines(a) is Some {
            assert(parse_lines(a)->Some_0 + parse_lines(b)->Some_0 =~= parse_lines(a)->Some_0);
        }
    } else {
        let b0 = b.drop_last();
        let l = b.last();
        lemma_parse_lines_append(a, b0);
        assert((a + b).drop_last() =~= a + b0);
        assert((a + b).last() == l);
        if parse_lines(a) is Some && parse_lines(b0) is Some && is_cpu_line(l)
            && spec_parse_cpu(l) is Some {
            let x = parse_lines(a)->Some_0;
            let y0 = parse_lines(b0)->Some_0;
            let st = spec_parse_cpu(l)->Some_0;
            assert(x + y0.push(st) =~= (x + y0).push(st));
        }
    }
}

/// Parses one line of the statistics file that is expected to be a CPU
/// record. Reports `FormatViolation` exactly when the line does not have ten
/// space-separated fields with decimal numerals in fields seven to nine.
pub fn parse_cpu(line: &str) -> (res: Result<Stat, FormatViolation>)
    ensures
        ({
            match spec_parse_cpu(line@) {
                Some(st) => res == Ok::<Stat, FormatViolation>(st),
                None => res == Err::<Stat, FormatViolation>(FormatViolation),
            }
        }),
{
    let ghost fields = split_on(line@, ' ');
    let n = line.unicode_len();
    let mut bounds: Vec<(usize, usize)> = Vec::new();
    let ghost mut done: Seq<Seq<char>> = Seq::empty();
    let mut p: usize = 0;
    proof {
        assert(line@.skip(0) =~= line@);
        assert(done + split_on(line@, ' ') =~= split_on(line@, ' '));
    }
    loop
        invariant_except_break
            fields =~= done + split_on(line@.skip(p as int), ' '),
        invariant
            n == line@.len(),
            p <= n,
            done.len() == bounds@.len(),
            forall|i: int|
                0 <= i < done.len() ==> (#[trigger] bounds@[i]).0 <= bounds@[i].1 <= n && done[i]
                    == line@.subrange(bounds@[i].0 as int, bounds@[i].1 as int),
        ensures
            done.len() == bounds@.len(),
            forall|i: int|
                0 <= i < done.len() ==> (#[trigger] bounds@[i]).0 <= bounds@[i].1 <= n && done[i]
                    == line@.subrange(bounds@[i].0 as int, bounds@[i].1 as int),
            fields =~= done,
        decreases n - p,
    {
        let e = scan_for(line, p, n, ' ');
        proof {
            lemma_split_on_step(line@, ' ', p as int, e as int);
        }
        bounds.push((p, e));
        proof {
            let seg = line@.subrange(p as int, e as int);
            assert(done + seq![seg] =~= done.push(seg));
            if e < n {
                assert(done + (seq![seg] + split_on(line@.skip(e + 1), ' ')) =~= done.push(seg)
                    + split_on(line@.skip(e + 1), ' '));
            }
            done = done.push(seg);
        }
        if e == n {
            break ;
        }
        p = e + 1;
    }
    if bounds.len() != 10 {
        return Err(FormatViolation);
    }
    let b7 = bounds[7];
    let b8 = bounds[8];
    let b9 = bounds[9];
    let v7 = match parse_usize_range(line, b7.0, b7.1) {
        Some(v) => v,
        None => {
            return Err(FormatViolation);
        },
    };
    let v8 = match parse_usize_range(line, b8.0, b8.1) {
        Some(v) => v,
        None => {
            return Err(FormatViolation);
        },
    };
    let v9 = match parse_usize_range(line, b9.0, b9.1) {
        Some(v) => v,
        None => {
            return Err(FormatViolation);
        },
    };
    Ok(Stat { total_running: v7, total_waiting: v8, timeslices: v9 })
}

/// Whether the line starts with the literal prefix `cpu`.
fn has_cpu_prefix(l: &str) -> (r: bool)
    ensures
        r == is_cpu_line(l@),
{
    let n = l.unicode_len();
    if n < 3 {
        return false;
    }
    l.get_char(0) == 'c' && l.get_char(1) == 'p' && l.get_char(2) == 'u'
}

/// Parses a whole statistics file: every line starting with `cpu` yields one
/// record, in order of appearance; all other lines are skipped. One
/// malformed CPU line fails the whole parse with `FormatViolation`.
pub fn parse_schedstat(contents: &str) -> (res: Result<Vec<Stat>, FormatViolation>)
    ensures
        ({
            match spec_parse(contents@) {
                Some(sts) => res matches Ok(v) && v@ == sts,
                None => res == Err::<Vec<Stat>, FormatViolation>(FormatViolation),
            }
        }),
{
    let ghost lns = spec_lines(contents@);
    let n = contents.unicode_len();
    let mut stats: Vec<Stat> = Vec::new();
    let ghost mut done: Seq<Seq<char>> = Seq::empty();
    let mut p: usize = 0;
    proof {
        assert(contents@.skip(0) =~= contents@);
        assert(done + strip_all(split_on(contents@, '\n')) =~= strip_all(
            split_on(contents@, '\n'),
        ));
    }
    loop
        invariant_except_break
            lns =~= done + strip_all(split_on(contents@.skip(p as int), '\n')),
        invariant
            n == contents@.len(),
            p <= n,
            lns == spec_lines(contents@),
            parse_lines(done) == Some(stats@),
        ensures
            lns =~= done,
            parse_lines(done) == Some(stats@),
        decreases n - p,
    {
        let e = scan_for(contents, p, n, '\n');
        proof {
            lemma_split_on_step(contents@, '\n', p as int, e as int);
        }
        let e2: usize = if e > p && contents.get_char(e - 1) == '\r' {
            e - 1
        } else {
            e
        };
        let ghost raw = contents@.subrange(p as int, e as int);
        let ghost stripped = strip_cr(raw);
        proof {
            if e2 < e {
                assert(raw.last() == contents@[e - 1]);
                assert(raw.drop_last() =~= contents@.subrange(p as int, e2 as int));
            }
            assert(stripped =~= contents@.subrange(p as int, e2 as int));
        }
        let line = contents.substring_char(p, e2);
        proof {
            if e == n {
                assert(strip_all(split_on(contents@.skip(p as int), '\n')) =~= seq![stripped]);
            } else {
                assert(strip_all(split_on(contents@.skip(p as int), '\n')) =~= seq![stripped]
                    + strip_all(split_on(contents@.skip(e + 1), '\n')));
                assert(done + (seq![stripped] + strip_all(split_on(contents@.skip(e + 1), '\n')))
                    =~= done.push(stripped) + strip_all(split_on(contents@.skip(e + 1), '\n')));
            }
            assert(done + seq![stripped] =~= done.push(stripped));
        }
        if has_cpu_prefix(line) {
            match parse_cpu(line) {
                Ok(st) => {
                    stats.push(st);
                },
                Err(violation) => {
                    proof {
                        let prev = done;
                        done = prev.push(stripped);
                        assert(done.drop_last() =~= prev);
                        assert(done.last() == stripped);
                        assert(parse_lines(done) is None);
                        if e < n {
                            lemma_parse_lines_append(
                                done,
                                strip_all(split_on(contents@.skip(e + 1), '\n')),
                            );
                        }
                    }
                    return Err(violation);
                },
            }
        }
        proof {
            let prev = done;
            done = prev.push(stripped);
            assert(done.drop_last() =~= prev);
            assert(done.last() == stripped);
        }
        if e == n {
            break ;
        }
        p = e + 1;
    }
    Ok(stats)
}

/// The metric name for cumulative running time.
pub open spec fn running_metric() -> Seq<char> {
    "node_schedstat_running_seconds_total"@
}

/// The metric name for cumulative waiting time.
pub open spec fn waiting_metric() -> Seq<char> {
    "node_schedstat_waiting_seconds_total"@
}

/// The metric name for the timeslice count.
pub open spec fn timeslices_metric() -> Seq<char> {
    "node_schedstat_seconds_total"@
}

/// The text between a metric name and its label value.
pub open spec fn label_open() -> Seq<char> {
    seq!['{', 'c', 'p', 'u', '=', '"']
}

/// The text between a label value and the sample value.
pub open spec fn label_close() -> Seq<char> {
    seq!['"', '}', ' ']
}

/// One exposition sample line: `name{cpu="<cpu>"} <value>`, newline
/// terminated.
pub open spec fn spec_sample(name: Seq<char>, cpu: nat, value: nat) -> Seq<char> {
    name + label_open() + dec_str(cpu) + label_close() + dec_str(value) + seq!['\n']
}

/// The three sample lines of one record: running and waiting time converted
/// from ticks to whole seconds, then the timeslice count likewise, all under
/// the same positional `cpu` label.
pub open spec fn spec_stat_samples(stat: Stat, cpu: nat, clk_tck: nat) -> Seq<char>
    recommends
        clk_tck > 0,
{
    spec_sample(running_metric(), cpu, stat.total_running as nat / clk_tck) + spec_sample(
        waiting_metric(),
        cpu,
        stat.total_waiting as nat / clk_tck,
    ) + spec_sample(timeslices_metric(), cpu, stat.timeslices as nat / clk_tck)
}

/// The whole exposition body: the samples of every record in order, each
/// labeled with its ordinal position.
pub open spec fn spec_render_all(stats: Seq<Stat>, clk_tck: nat) -> Seq<char>
    recommends
        clk_tck > 0,
    decreases stats.len(),
{
    if stats.len() == 0 {
        Seq::empty()
    } else {
        spec_render_all(stats.drop_last(), clk_tck) + spec_stat_samples(
            stats.last(),
            (stats.len() - 1) as nat,
            clk_tck,
        )
    }
}

/// Renders one exposition sample line.
pub fn to_prometheus_sample(metric_name: &str, cpu: usize, value: usize) -> (r: String)
    ensures
        r@ == spec_sample(metric_name@, cpu as nat, value as nat),
{
    let mut text = String::from_str(metric_name);
    text.append("{cpu=\"");
    let cpu_text = usize_to_string(cpu);
    text.append(cpu_text.as_str());
    text.append("\"} ");
    let value_text = usize_to_string(value);
    text.append(value_text.as_str());
    text.append("\n");
    proof {
        reveal_strlit("{cpu=\"");
        reveal_strlit("\"} ");
        reveal_strlit("\n");
        assert("{cpu=\""@ =~= label_open());
        assert("\"} "@ =~= label_close());
        assert("\n"@ =~= seq!['\n']);
        assert(text@ =~= spec_sample(metric_name@, cpu as nat, value as nat));
    }
    text
}

impl Stat {
    /// Renders the three sample lines of this record under the positional
    /// label `cpu`, converting each counter from ticks to whole seconds.
    pub fn to_prometheus_samples(&self, cpu: usize, clk_tck: usize) -> (r: String)
        requires
            clk_tck > 0,
        ensures
            r@ == spec_stat_samples(*self, cpu as nat, clk_tck as nat),
    {
        let mut text = to_prometheus_sample(
            "node_schedstat_running_seconds_total",
            cpu,
            jiffies_to_seconds(self.total_running, clk_tck),
        );
        let waiting = to_prometheus_sample(
            "node_schedstat_waiting_seconds_total",
            cpu,
            jiffies_to_seconds(self.total_waiting, clk_tck),
        );
        text.append(waiting.as_str());
        let timeslices = to_prometheus_sample(
            "node_schedstat_seconds_total",
            cpu,
            jiffies_to_seconds(self.timeslices, clk_tck),
        );
        text.append(timeslices.as_str());
        text
    }
}

/// Renders the whole exposition body for a parsed sequence of records, each
/// labeled with its ordinal position in the sequence.
pub fn render_all(stats: &Vec<Stat>, clk_tck: usize) -> (r: String)
    requires
        clk_tck > 0,
    ensures
        r@ == spec_render_all(stats@, clk_tck as nat),
{
    let mut text = String::new();
    let mut i: usize = 0;
    proof {
        assert(stats@.subrange(0, 0) =~= Seq::<Stat>::empty());
    }
    while i < stats.len()
        invariant
            i <= stats@.len(),
            clk_tck > 0,
            text@ == spec_render_all(stats@.subrange(0, i as int), clk_tck as nat),
        decreases stats@.len() - i,
    {
        let samples = stats[i].to_prometheus_samples(i, clk_tck);
        text.append(samples.as_str());
        proof {
            let pre = stats@.subrange(0, i as int);
            let ext = stats@.subrange(0, i + 1);
            assert(ext.drop_last() =~= pre);
            assert(ext.last() == stats@[i as int]);
        }
        i = i + 1;
    }
    proof {
        assert(stats@.subrange(0, stats@.len() as int) =~= stats@);
    }
    text
}

/// The CPU-prefixed members of a line sequence, in order.
pub open spec fn cpu_only(ls: Seq<Seq<char>>) -> Seq<Seq<char>> {
    ls.filter(|l: Seq<char>| is_cpu_line(l))
}

/// The CPU-prefixed lines of an input, in order of appearance.
pub open spec fn cpu_lines(s: Seq<char>) -> Seq<Seq<char>> {
    cpu_only(spec_lines(s))
}

proof fn lemma_parse_lines_no_cpu(ls: Seq<Seq<char>>)
    requires
        forall|i: int| 0 <= i < ls.len() ==> !is_cpu_line(#[trigger] ls[i]),
    ensures
        parse_lines(ls) == Some(Seq::<Stat>::empty()),
    decreases ls.len(),
{
    if ls.len() > 0 {
        lemma_parse_lines_no_cpu(ls.drop_last());
    }
}

/// Parsing an input with no CPU-prefixed line yields the empty record
/// sequence, never an error.
pub proof fn lemma_parse_no_cpu_lines(s: Seq<char>)
    requires
        forall|i: int| 0 <= i < spec_lines(s).len() ==> !is_cpu_line(#[trigger] spec_lines(s)[i]),
    ensures
        spec_parse(s) == Some(Seq::<Stat>::empty()),
{
    lemma_parse_lines_no_cpu(spec_lines(s));
}

proof fn lemma_parse_lines_all_wf(ls: Seq<Seq<char>>)
    requires
        forall|i: int|
            0 <= i < cpu_only(ls).len() ==> spec_parse_cpu(#[trigger] cpu_only(ls)[i]) is Some,
    ensures
        parse_lines(ls) matches Some(rs) && rs.len() == cpu_only(ls).len() && (forall|i: int|
            0 <= i < cpu_only(ls).len() ==> spec_parse_cpu(cpu_only(ls)[i]) == Some(
                #[trigger] rs[i],
            )),
    decreases ls.len(),
{
    reveal(Seq::filter);
    if ls.len() > 0 {
        let init = ls.drop_last();
        let l = ls.last();
        if is_cpu_line(l) {
            assert(cpu_only(ls) == cpu_only(init).push(l));
            assert(forall|i: int|
                0 <= i < cpu_only(init).len() ==> #[trigger] cpu_only(init)[i] == cpu_only(
                    ls,
                )[i]);
        } else {
            assert(cpu_only(ls) == cpu_only(init));
        }
        lemma_parse_lines_all_wf(init);
        if is_cpu_line(l) {
            assert(cpu_only(ls).last() == l);
            assert(spec_parse_cpu(l) is Some);
        }
    }
}

/// When every CPU-prefixed line of the input is well formed, the parse
/// succeeds with exactly one record per CPU line, in the order the CPU lines
/// appear, with every other line ignored.
pub proof fn lemma_parse_well_formed_cpu_lines(s: Seq<char>)
    requires
        forall|i: int|
            0 <= i < cpu_lines(s).len() ==> spec_parse_cpu(#[trigger] cpu_lines(s)[i]) is Some,
    ensures
        spec_parse(s) matches Some(rs) && rs.len() == cpu_lines(s).len() && (forall|i: int|
            0 <= i < cpu_lines(s).len() ==> spec_parse_cpu(cpu_lines(s)[i]) == Some(
                #[trigger] rs[i],
            )),
{
    lemma_parse_lines_all_wf(spec_lines(s));
}

proof fn lemma_sample_newline_count(name: Seq<char>, cpu: nat, value: nat)
    requires
        forall|i: int| 0 <= i < name.len() ==> name[i] != '\n',
    ensures
        char_count(spec_sample(name, cpu, value), '\n') == 1,
{
    lemma_char_count_absent(name, '\n');
    assert(forall|i: int| 0 <= i < label_open().len() ==> label_open()[i] != '\n');
    lemma_char_count_absent(label_open(), '\n');
    assert(forall|i: int| 0 <= i < label_close().len() ==> label_close()[i] != '\n');
    lemma_char_count_absent(label_close(), '\n');
    lemma_dec_str_no_newline(cpu);
    lemma_dec_str_no_newline(value);
    let t1 = name + label_open();
    let t2 = t1 + dec_str(cpu);
    let t3 = t2 + label_close();
    let t4 = t3 + dec_str(value);
    lemma_char_count_append(name, label_open(), '\n');
    lemma_char_count_append(t1, dec_str(cpu), '\n');
    lemma_char_count_append(t2, label_close(), '\n');
    lemma_char_count_append(t3, dec_str(value), '\n');
    lemma_char_count_append(t4, seq!['\n'], '\n');
    assert(char_count(Seq::<char>::empty(), '\n') == 0);
    assert(seq!['\n'].drop_last() =~= Seq::<char>::empty());
    assert(seq!['\n'].last() == '\n');
    assert(char_count(seq!['\n'], '\n') == char_count(Seq::<char>::empty(), '\n') + 1);
}

proof fn lemma_stat_samples_newline_count(stat: Stat, cpu: nat, clk_tck: nat)
    ensures
        char_count(spec_stat_samples(stat, cpu, clk_tck), '\n') == 3,
{
    reveal_strlit("node_schedstat_running_seconds_total");
    reveal_strlit("node_schedstat_waiting_seconds_total");
    reveal_strlit("node_schedstat_seconds_total");
    assert(forall|i: int| 0 <= i < running_metric().len() ==> running_metric()[i] != '\n');
    assert(forall|i: int| 0 <= i < waiting_metric().len() ==> waiting_metric()[i] != '\n');
    assert(forall|i: int| 0 <= i < timeslices_metric().len() ==> timeslices_metric()[i] != '\n');
    let s1 = spec_sample(running_metric(), cpu, stat.total_running as nat / clk_tck);
    let s2 = spec_sample(waiting_metric(), cpu, stat.total_waiting as nat / clk_tck);
    let s3 = spec_sample(timeslices_metric(), cpu, stat.timeslices as nat / clk_tck);
    lemma_sample_newline_count(running_metric(), cpu, stat.total_running as nat / clk_tck);
    lemma_sample_newline_count(waiting_metric(), cpu, stat.total_waiting as nat / clk_tck);
    lemma_sample_newline_count(timeslices_metric(), cpu, stat.timeslices as nat / clk_tck);
    lemma_char_count_append(s1, s2, '\n');
    lemma_char_count_append(s1 + s2, s3, '\n');
}

/// Every record contributes exactly three newline-terminated sample lines to
/// the rendered exposition body: its newline count is three per record.
pub proof fn lemma_render_all_sample_lines(stats: Seq<Stat>, clk_tck: nat)
    ensures
        char_count(spec_render_all(stats, clk_tck), '\n') == 3 * stats.len(),
    decreases stats.len(),
{
    if stats.len() > 0 {
        lemma_render_all_sample_lines(stats.drop_last(), clk_tck);
        lemma_stat_samples_newline_count(stats.last(), (stats.len() - 1) as nat, clk_tck);
        lemma_char_count_append(
            spec_render_all(stats.drop_last(), clk_tck),
            spec_stat_samples(stats.last(), (stats.len() - 1) as nat, clk_tck),
            '\n',
        );
    }
}

/// Rendering is deterministic: any two renderings of the same record at the
/// same index with the same clock-tick rate are byte-identical.
pub proof fn lemma_render_deterministic(
    stat: Stat,
    cpu: nat,
    clk_tck: nat,
    r1: Seq<char>,
    r2: Seq<char>,
)
    requires
        r1 == spec_stat_samples(stat, cpu, clk_tck),
        r2 == spec_stat_samples(stat, cpu, clk_tck),
    ensures
        r1 == r2,
{
}

} // verus!
