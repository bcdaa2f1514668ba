use vstd::prelude::*;
use vstd::string::StringExecFns;
use crate::benchmark::{durations_of, BenchmarkResults};
use crate::config::GroupConfig;
use crate::schedule::{RunView, Stage};
use crate::csv_out::{csv_record_bytes, encode_record, Quoting};
use crate::ordered_map::{duration_entries, duration_entry_at, duration_map_len, keys_of};

verus! {

/// The character of a decimal digit.
pub open spec fn digit_char(d: nat) -> char {
    if d == 0 { '0' }
    else if d == 1 { '1' }
    else if d == 2 { '2' }
    else if d == 3 { '3' }
    else if d == 4 { '4' }
    else if d == 5 { '5' }
    else if d == 6 { '6' }
    else if d == 7 { '7' }
    else if d == 8 { '8' }
    else { '9' }
}

/// The decimal notation of a number, without leading zeros.
pub open spec fn decimal(n: nat) -> Seq<char>
    decreases n,
{
    if n < 10 {
        seq![digit_char(n)]
    } else {
        decimal(n / 10).push(digit_char(n % 10))
    }
}

/// The value of a digit character.
pub open spec fn digit_value(c: char) -> nat {
    if c == '1' { 1 }
    else if c == '2' { 2 }
    else if c == '3' { 3 }
    else if c == '4' { 4 }
    else if c == '5' { 5 }
    else if c == '6' { 6 }
    else if c == '7' { 7 }
    else if c == '8' { 8 }
    else if c == '9' { 9 }
    else { 0 }
}

/// The number that a sequence of decimal digits denotes.
pub open spec fn decimal_value(s: Seq<char>) -> nat
    decreases s.len(),
{
    if s.len() == 0 {
        0
    } else {
        decimal_value(s.drop_last()) * 10 + digit_value(s.last())
    }
}

/// Reading the decimal notation of a number gives the number back; the
/// notation has no leading zero (but for the number 0 itself).
pub proof fn lemma_decimal_round_trip(n: nat)
    ensures
        decimal_value(decimal(n)) == n,
        decimal(n).len() >= 1,
        decimal(n).len() > 1 ==> decimal(n)[0] != '0',
        n >= 10 ==> decimal(n).len() >= 2,
    decreases n,
{
    if n >= 10 {
        let q: nat = n / 10;
        let r: nat = n % 10;
        lemma_decimal_round_trip(q);
        lemma_digit(r);
        lemma_digit(q);
        let d = decimal(n);
        assert(d == decimal(q).push(digit_char(r)));
        assert(d.drop_last() =~= decimal(q));
        assert(d.last() == digit_char(r));
        assert(decimal_value(d) == decimal_value(decimal(q)) * 10 + digit_value(digit_char(r)));
        assert(n == q * 10 + r);
        assert(d[0] == decimal(q)[0]);
        if decimal(q).len() == 1 {
            assert(q < 10);
            assert(decimal(q)[0] == digit_char(q));
        }
    } else {
        lemma_digit(n);
        let d = decimal(n);
        assert(d == seq![digit_char(n)]);
        assert(d.drop_last() =~= Seq::<char>::empty());
        assert(decimal_value(d.drop_last()) == 0);
        assert(d.last() == digit_char(n));
        assert(decimal_value(d) == decimal_value(d.drop_last()) * 10 + digit_value(d.last()));
    }
}

proof fn lemma_digit(d: nat)
    ensures
        d < 10 ==> digit_value(digit_char(d)) == d,
        1 <= d < 10 ==> digit_char(d) != '0',
{
}

fn digit_str(d: u128) -> (s: &'static str)
    requires
        d < 10,
    ensures
        s@ == seq![digit_char(d as nat)],
{
    proof {
        reveal_strlit("0");
        reveal_strlit("1");
        reveal_strlit("2");
        reveal_strlit("3");
        reveal_strlit("4");
        reveal_strlit("5");
        reveal_strlit("6");
        reveal_strlit("7");
        reveal_strlit("8");
        reveal_strlit("9");
    }
    if d == 0 { "0" }
    else if d == 1 { "1" }
    else if d == 2 { "2" }
    else if d == 3 { "3" }
    else if d == 4 { "4" }
    else if d == 5 { "5" }
    else if d == 6 { "6" }
    else if d == 7 { "7" }
    else if d == 8 { "8" }
    else { "9" }
}

/// Appends the decimal notation of the number.
fn push_decimal(out: &mut String, n: u128)
    ensures
        final(out)@ == old(out)@ + decimal(n as nat),
    decreases n,
{
    if n >= 10 {
        push_decimal(out, n / 10);
    }
    out.append(digit_str(n % 10));
    assert(decimal(n as nat) =~= if n < 10 { seq![digit_char(n as nat)] } else {
        decimal((n / 10) as nat).push(digit_char((n % 10) as nat))
    });
}

/// The decimal notation of a number (what `to_string` gives for it).
pub fn decimal_string(n: u128) -> (s: String)
    ensures
        s@ == decimal(n as nat),
{
    let mut s = String::new();
    push_decimal(&mut s, n);
    assert(s@ =~= decimal(n as nat));
    s
}

/// The largest number of recorded times of a server; 0 without servers.
pub open spec fn max_len(entries: Seq<(Seq<char>, Seq<u128>)>) -> nat
    decreases entries.len(),
{
    if entries.len() == 0 {
        0
    } else {
        let rest: nat = max_len(entries.drop_last());
        if entries.last().1.len() > rest { entries.last().1.len() } else { rest }
    }
}

/// The cell of a server in a row: its recorded time in milliseconds, or
/// nothing when it has fewer times.
pub open spec fn cell(durations: Seq<u128>, row: int) -> Seq<char> {
    if 0 <= row < durations.len() {
        decimal(durations[row] as nat)
    } else {
        Seq::empty()
    }
}

/// A row of the table: one cell per server, in order.
pub open spec fn row_cells(entries: Seq<(Seq<char>, Seq<u128>)>, row: int) -> Seq<Seq<char>> {
    entries.map_values(|e: (Seq<char>, Seq<u128>)| cell(e.1, row))
}

/// The table of results: the server names as header, then one row per
/// lookup number, as many as the longest list of recorded times.
pub open spec fn results_table(entries: Seq<(Seq<char>, Seq<u128>)>) -> Seq<Seq<Seq<char>>> {
    seq![keys_of(entries)] + Seq::new(max_len(entries), |row: int| row_cells(entries, row))
}

/// The bytes of the CSV file: each record of the table encoded with every
/// non-numeric field in quotes, one after the other.
pub open spec fn results_csv_bytes(entries: Seq<(Seq<char>, Seq<u128>)>) -> Seq<u8> {
    results_table(entries).map_values(|r: Seq<Seq<char>>| csv_record_bytes(Quoting::NonNumeric, r)).flatten()
}

/// The header of the table names every server in full, in the order of the
/// map; each later record holds, for each server in that order, its time of
/// that lookup in decimal milliseconds, or an empty field when it has fewer
/// lookups.
pub proof fn lemma_table_header_and_cells(entries: Seq<(Seq<char>, Seq<u128>)>)
    ensures
        results_table(entries)[0].len() == entries.len(),
        forall|j: int| 0 <= j < entries.len() ==> #[trigger] results_table(entries)[0][j] == entries[j].0,
        forall|row: int, j: int| 0 <= row < max_len(entries) && 0 <= j < entries.len() && row < entries[j].1.len()
            ==> decimal_value(#[trigger] results_table(entries)[row + 1][j]) == entries[j].1[row]
                && results_table(entries)[row + 1][j] == decimal(entries[j].1[row] as nat),
        forall|row: int, j: int| 0 <= row < max_len(entries) && 0 <= j < entries.len() && row >= entries[j].1.len()
            ==> (#[trigger] results_table(entries)[row + 1][j]).len() == 0,
{
    assert forall|row: int, j: int| 0 <= row < max_len(entries) && 0 <= j < entries.len() && row < entries[j].1.len()
        implies decimal_value(#[trigger] results_table(entries)[row + 1][j]) == entries[j].1[row]
            && results_table(entries)[row + 1][j] == decimal(entries[j].1[row] as nat) by {
        assert(results_table(entries)[row + 1] == row_cells(entries, row));
        lemma_decimal_round_trip(entries[j].1[row] as nat);
    }
    assert forall|row: int, j: int| 0 <= row < max_len(entries) && 0 <= j < entries.len() && row >= entries[j].1.len()
        implies (#[trigger] results_table(entries)[row + 1][j]).len() == 0 by {
        assert(results_table(entries)[row + 1] == row_cells(entries, row));
    }
}

/// The records of the table have one field per server each.
pub proof fn lemma_table_is_rectangular(entries: Seq<(Seq<char>, Seq<u128>)>)
    ensures
        forall|r: int| 0 <= r < results_table(entries).len() ==> #[trigger] results_table(entries)[r].len() == entries.len(),
        results_table(entries).len() == max_len(entries) + 1,
{
    assert forall|r: int| 0 <= r < results_table(entries).len() implies #[trigger] results_table(entries)[r].len() == entries.len() by {
        if r > 0 {
            assert(results_table(entries)[r] == row_cells(entries, r - 1));
        }
    }
}

/// Every server's times fit in the rows of the table.
pub proof fn lemma_max_len_bounds(entries: Seq<(Seq<char>, Seq<u128>)>)
    ensures
        forall|j: int| 0 <= j < entries.len() ==> #[trigger] entries[j].1.len() <= max_len(entries),
        entries.len() > 0 ==> exists|j: int| 0 <= j < entries.len() && #[trigger] entries[j].1.len() == max_len(entries),
    decreases entries.len(),
{
    if entries.len() > 0 {
        let init = entries.drop_last();
        lemma_max_len_bounds(init);
        assert forall|j: int| 0 <= j < entries.len() implies #[trigger] entries[j].1.len() <= max_len(entries) by {
            if j < init.len() {
                assert(entries[j] == init[j]);
            }
        }
        if entries.last().1.len() > max_len(init) {
            assert(entries[entries.len() - 1].1.len() == max_len(entries));
        } else if init.len() > 0 {
            let j: int = choose|j: int| 0 <= j < init.len() && #[trigger] init[j].1.len() == max_len(init);
            assert(entries[j] == init[j]);
        } else {
            assert(entries[0].1.len() == max_len(entries));
        }
    }
}

/// When every server's run is finished over the same number of domains, the
/// table has two rows per domain (an IPv4 and an IPv6 lookup each), and every
/// cell holds the time that server recorded for that lookup.
pub proof fn lemma_finished_runs_fill_table(entries: Seq<(Seq<char>, RunView)>, chunk: nat)
    requires
        entries.len() > 0,
        forall|j: int| 0 <= j < entries.len() ==> {
            &&& (#[trigger] entries[j]).1.wf()
            &&& entries[j].1.stage == Stage::Finished
            &&& entries[j].1.domains.len() == chunk
        },
    ensures
        max_len(durations_of(entries)) == 2 * chunk,
        results_table(durations_of(entries)).len() == 2 * chunk + 1,
        forall|row: int, j: int| 0 <= row < 2 * chunk && 0 <= j < entries.len() ==>
            #[trigger] results_table(durations_of(entries))[row + 1][j] == decimal(entries[j].1.durations[row] as nat),
{
    let d = durations_of(entries);
    lemma_max_len_bounds(d);
    assert forall|j: int| 0 <= j < d.len() implies #[trigger] d[j].1.len() == 2 * chunk by {
        assert(entries[j].1.wf());
    }
    let j0: int = choose|j: int| 0 <= j < d.len() && #[trigger] d[j].1.len() == max_len(d);
    assert(d[j0].1.len() == 2 * chunk);
    assert forall|row: int, j: int| 0 <= row < 2 * chunk && 0 <= j < entries.len() implies
        #[trigger] results_table(d)[row + 1][j] == decimal(entries[j].1.durations[row] as nat) by {
        assert(results_table(d)[row + 1] == row_cells(d, row));
        assert(d[j].1 == entries[j].1.durations);
    }
}

fn copy_name(name: &String) -> (out: String)
    ensures
        out@ == name@,
{
    name.clone()
}

/// The header of the table: the server names, in order.
fn header_record(results: &BenchmarkResults) -> (header: Vec<String>)
    ensures
        header.deep_view() == keys_of(duration_entries(results.results)),
{
    let ghost entries = duration_entries(results.results);
    let n: usize = duration_map_len(&results.results);
    let mut header: Vec<String> = Vec::new();
    let mut j: usize = 0;
    while j < n
        invariant
            j <= n,
            n == entries.len(),
            entries == duration_entries(results.results),
            header.deep_view() == keys_of(entries).take(j as int),
        decreases n - j,
    {
        match duration_entry_at(&results.results, j) {
            Some((name, _)) => {
                let ghost before = header.deep_view();
                header.push(copy_name(name));
                assert(header.deep_view() =~= before.push(entries[j as int].0));
            },
            None => {},
        }
        assert(keys_of(entries).take(j + 1) =~= keys_of(entries).take(j as int).push(entries[j as int].0));
        j = j + 1;
    }
    assert(keys_of(entries).take(n as int) =~= keys_of(entries));
    header
}

/// The longest list of recorded times.
fn longest(results: &BenchmarkResults) -> (m: usize)
    ensures
        m == max_len(duration_entries(results.results)),
{
    let ghost entries = duration_entries(results.results);
    let n: usize = duration_map_len(&results.results);
    let mut m: usize = 0;
    let mut j: usize = 0;
    while j < n
        invariant
            j <= n,
            n == entries.len(),
            entries == duration_entries(results.results),
            m == max_len(entries.take(j as int)),
        decreases n - j,
    {
        match duration_entry_at(&results.results, j) {
            Some((_, times)) => {
                if times.len() > m {
                    m = times.len();
                }
            },
            None => {},
        }
        assert(entries.take(j + 1).drop_last() =~= entries.take(j as int));
        j = j + 1;
    }
    assert(entries.take(n as int) =~= entries);
    m
}

/// A row of the table: for each server, its `row`-th time in milliseconds,
/// or an empty field when it has fewer times.
fn row_record(results: &BenchmarkResults, row: usize) -> (record: Vec<String>)
    ensures
        record.deep_view() == row_cells(duration_entries(results.results), row as int),
{
    let ghost entries = duration_entries(results.results);
    let n: usize = duration_map_len(&results.results);
    let mut record: Vec<String> = Vec::new();
    let mut j: usize = 0;
    while j < n
        invariant
            j <= n,
            n == entries.len(),
            entries == duration_entries(results.results),
            record.deep_view() == row_cells(entries, row as int).take(j as int),
        decreases n - j,
    {
        match duration_entry_at(&results.results, j) {
            Some((_, times)) => {
                let ghost before = record.deep_view();
                if row < times.len() {
                    record.push(decimal_string(times[row]));
                } else {
                    record.push(String::new());
                }
                assert(record.deep_view() =~= before.push(cell(entries[j as int].1, row as int)));
            },
            None => {},
        }
        assert(row_cells(entries, row as int).take(j + 1) =~= row_cells(entries, row as int).take(j as int).push(
            cell(entries[j as int].1, row as int)));
        j = j + 1;
    }
    assert(row_cells(entries, row as int).take(n as int) =~= row_cells(entries, row as int));
    record
}

/// Why the results could not be written as CSV.
#[derive(Debug)]
pub enum ResultsError {
    /// Encoding the header failed.
    Header(csv::Error),
    /// Encoding a row failed.
    Record(csv::Error),
}

/// The CSV file starts with the encoded header, the full server names in the
/// map's order, and goes on with the encoded rows.
pub proof fn lemma_csv_starts_with_header(entries: Seq<(Seq<char>, Seq<u128>)>)
    ensures
        results_csv_bytes(entries) == csv_record_bytes(Quoting::NonNumeric, entries.map_values(|e: (Seq<char>, Seq<u128>)| e.0))
            + Seq::new(max_len(entries), |row: int| row_cells(entries, row))
                .map_values(|r: Seq<Seq<char>>| csv_record_bytes(Quoting::NonNumeric, r)).flatten(),
{
    let f = |r: Seq<Seq<char>>| csv_record_bytes(Quoting::NonNumeric, r);
    let table = results_table(entries);
    let m = table.map_values(f);
    assert(keys_of(entries) =~= entries.map_values(|e: (Seq<char>, Seq<u128>)| e.0));
    assert(m.drop_first() =~= Seq::new(max_len(entries), |row: int| row_cells(entries, row)).map_values(f));
    assert(m.len() > 0);
}

/// The records of the table as CSV, from the given row on, after `acc`.
pub open spec fn encoded_from(table: Seq<Seq<Seq<char>>>, count: int) -> Seq<u8> {
    table.take(count).map_values(|r: Seq<Seq<char>>| csv_record_bytes(Quoting::NonNumeric, r)).flatten()
}

proof fn lemma_encoded_step(table: Seq<Seq<Seq<char>>>, count: int)
    requires
        0 <= count < table.len(),
    ensures
        encoded_from(table, count + 1) == encoded_from(table, count) + csv_record_bytes(Quoting::NonNumeric, table[count]),
{
    let f = |r: Seq<Seq<char>>| csv_record_bytes(Quoting::NonNumeric, r);
    let a = table.take(count).map_values(f);
    let b = table.take(count + 1).map_values(f);
    assert(b =~= a.push(f(table[count])));
    a.lemma_flatten_push(f(table[count]));
}

/// The results as a CSV file: a header with the server names, then for each
/// lookup number a row with each server's time in milliseconds (empty where a
/// server has fewer times), every non-numeric field in quotes. Encoding into
/// memory always succeeds.
pub fn results_csv(results: &BenchmarkResults) -> (r: Result<Vec<u8>, ResultsError>)
    ensures
        r is Ok,
        r matches Ok(bytes) ==> bytes@ == results_csv_bytes(duration_entries(results.results)),
{
    let ghost entries = duration_entries(results.results);
    let ghost table = results_table(entries);
    let header = header_record(results);
    let mut bytes = match encode_record(Quoting::NonNumeric, &header) {
        Ok(b) => b,
        Err(e) => return Err(ResultsError::Header(e)),
    };
    proof {
        assert(table[0] == keys_of(entries));
        lemma_encoded_step(table, 0);
        assert(table.take(0).map_values(|r: Seq<Seq<char>>| csv_record_bytes(Quoting::NonNumeric, r)) =~= Seq::<Seq<u8>>::empty());
        assert(encoded_from(table, 0) =~= Seq::<u8>::empty());
        assert(bytes@ =~= encoded_from(table, 1));
    }
    let rows: usize = longest(results);
    let mut row: usize = 0;
    while row < rows
        invariant
            row <= rows,
            rows == max_len(entries),
            entries == duration_entries(results.results),
            table == results_table(entries),
            table.len() == rows + 1,
            bytes@ == encoded_from(table, row + 1),
        decreases rows - row,
    {
        let record = row_record(results, row);
        let encoded = match encode_record(Quoting::NonNumeric, &record) {
            Ok(b) => b,
            Err(e) => return Err(ResultsError::Record(e)),
        };
        let ghost before = bytes@;
        let mut i: usize = 0;
        while i < encoded.len()
            invariant
                i <= encoded.len(),
                bytes@ == before + encoded@.take(i as int),
            decreases encoded.len() - i,
        {
            bytes.push(encoded[i]);
            assert(encoded@.take(i + 1) =~= encoded@.take(i as int).push(encoded@[i as int]));
            assert(bytes@ =~= before + encoded@.take(i + 1));
            i = i + 1;
        }
        proof {
            assert(encoded@.take(encoded.len() as int) =~= encoded@);
            assert(table[row + 1] == row_cells(entries, row as int));
            lemma_encoded_step(table, row + 1);
        }
        row = row + 1;
    }
    proof {
        assert(table.take(rows + 1) =~= table);
    }
    Ok(bytes)
}

/// The names joined by `-`.
pub open spec fn joined_names(names: Seq<Seq<char>>) -> Seq<char>
    decreases names.len(),
{
    if names.len() == 0 {
        Seq::empty()
    } else if names.len() == 1 {
        names[0]
    } else {
        joined_names(names.drop_last()) + "-"@ + names.last()
    }
}

/// The names of the groups, in order.
pub open spec fn group_names(groups: Seq<GroupConfig>) -> Seq<Seq<char>> {
    groups.map_values(|g: GroupConfig| g.name@)
}

/// The name of a benchmark, which its results file carries: the names of its
/// groups, in order, joined by `-`.
pub fn benchmark_name(groups: &Vec<GroupConfig>) -> (name: String)
    ensures
        name@ == joined_names(group_names(groups@)),
{
    let ghost names = group_names(groups@);
    let mut name = String::new();
    let mut i: usize = 0;
    proof {
        reveal_strlit("-");
    }
    while i < groups.len()
        invariant
            i <= groups.len(),
            names == group_names(groups@),
            name@ == joined_names(names.take(i as int)),
            "-"@ == seq!['-'],
        decreases groups.len() - i,
    {
        if i > 0 {
            name.append("-");
        }
        name.append(groups[i].name.as_str());
        assert(names.take(i + 1).drop_last() =~= names.take(i as int));
        assert(names.take(i + 1).last() == groups@[i as int].name@);
        if i == 0 {
            assert(names.take(1) =~= seq![groups@[0].name@]);
        }
        i = i + 1;
    }
    assert(names.take(groups.len() as int) =~= names);
    name
}

/// The path of the results file for a timestamp and a name:
/// `results/dns-benchmark-<timestamp>-<name>.csv`.
pub open spec fn results_path(timestamp: Seq<char>, name: Seq<char>) -> Seq<char> {
    "results/dns-benchmark-"@ + timestamp + "-"@ + name + ".csv"@
}

/// The results file lies in `results/`, is named `dns-benchmark-`, then the
/// timestamp in full, a `-`, the name in full, and ends in `.csv`.
pub proof fn lemma_results_path_parts(timestamp: Seq<char>, name: Seq<char>)
    ensures
        results_path(timestamp, name).len() == 27 + timestamp.len() + name.len(),
        results_path(timestamp, name).take(22) == seq!['r', 'e', 's', 'u', 'l', 't', 's', '/', 'd', 'n', 's', '-', 'b', 'e', 'n', 'c', 'h', 'm', 'a', 'r', 'k', '-'],
        results_path(timestamp, name).subrange(22, 22 + timestamp.len() as int) == timestamp,
        results_path(timestamp, name)[22 + timestamp.len() as int] == '-',
        results_path(timestamp, name).subrange(23 + timestamp.len() as int, 23 + timestamp.len() + name.len() as int) == name,
        results_path(timestamp, name).subrange(23 + timestamp.len() + name.len() as int, 27 + timestamp.len() + name.len() as int)
            == seq!['.', 'c', 's', 'v'],
{
    reveal_strlit("results/dns-benchmark-");
    reveal_strlit("-");
    reveal_strlit(".csv");
    let p = results_path(timestamp, name);
    let t = timestamp.len() as int;
    let n = name.len() as int;
    assert(p.take(22) =~= seq!['r', 'e', 's', 'u', 'l', 't', 's', '/', 'd', 'n', 's', '-', 'b', 'e', 'n', 'c', 'h', 'm', 'a', 'r', 'k', '-']);
    assert(p.subrange(22, 22 + t) =~= timestamp);
    assert(p.subrange(23 + t, 23 + t + n) =~= name);
    assert(p.subrange(23 + t + n, 27 + t + n) =~= seq!['.', 'c', 's', 'v']);
}

/// The path of the results file: `results/dns-benchmark-<timestamp>-<name>.csv`.
pub fn results_file_name(timestamp: &str, name: &str) -> (path: String)
    ensures
        path@ == results_path(timestamp@, name@),
{
    let mut path = String::from_str("results/dns-benchmark-");
    path.append(timestamp);
    path.append("-");
    path.append(name);
    path.append(".csv");
    path
}

} // verus!
