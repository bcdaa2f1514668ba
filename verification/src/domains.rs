use vstd::prelude::*;
use vstd::string::{StrSliceExecFns, StringExecFns};
use sprintf::PrintfError;
use crate::config::DomainConfig;
use crate::printf::{
    ascii_digit_value, conversion_at, digits_end, digits_value, format_domain, has_precision, is_ascii_digit,
    is_printf_conversion, is_printf_flag, param_end, param_overflows, precision_start, printf_overflows_from,
    printf_safe, printf_text, skip_flags, skip_length, width_start,
};
use crate::randomness::{random_prefix, shuffle_lines};

verus! {

/// Why the list of domains could not be made.
#[derive(Debug)]
pub enum DomainError {
    /// The format of generated domains could not be applied.
    Format(PrintfError),
    /// The format of generated domains has a width or precision larger than
    /// `i32::MAX`.
    FormatNumberTooLarge,
    /// The file of domains could not be read; the message says why.
    File(String),
}

/// A domain as a fully qualified name: with a dot at its end.
pub open spec fn with_trailing_dot(domain: Seq<char>) -> Seq<char> {
    if domain.len() > 0 && domain.last() == '.' {
        domain
    } else {
        domain.push('.')
    }
}

/// Making a domain fully qualified only appends a dot, and only when the
/// domain does not end with one: the domain is kept as the start of the
/// result, the result ends with a dot, and it is at most one character longer.
pub proof fn lemma_trailing_dot_only_appends(domain: Seq<char>)
    ensures
        with_trailing_dot(domain).len() > 0,
        with_trailing_dot(domain).last() == '.',
        domain.is_prefix_of(with_trailing_dot(domain)),
        with_trailing_dot(domain).len() == domain.len() || with_trailing_dot(domain).len() == domain.len() + 1,
        (domain.len() > 0 && domain.last() == '.') <==> with_trailing_dot(domain) == domain,
        with_trailing_dot(with_trailing_dot(domain)) == with_trailing_dot(domain),
{
    let r = with_trailing_dot(domain);
    assert(domain.is_prefix_of(r)) by {
        assert(r.take(domain.len() as int) =~= domain);
    }
    if !(domain.len() > 0 && domain.last() == '.') {
        assert(r.len() != domain.len());
    }
}

/// Adds a dot at the end of the domain unless it ends with one.
pub fn ensure_trailing_dot(domain: &mut String)
    ensures
        final(domain)@ == with_trailing_dot(old(domain)@),
{
    let n: usize = domain.as_str().unicode_len();
    if n > 0 && domain.as_str().get_char(n - 1) == '.' {
        return;
    }
    proof {
        reveal_strlit(".");
    }
    domain.append(".");
}

/// An optional string as an optional sequence of characters.
pub open spec fn opt_view(s: Option<String>) -> Option<Seq<char>> {
    match s {
        Some(t) => Some(t@),
        None => None,
    }
}

/// The fixed domain, `repeat` times, or nothing without a fixed domain.
pub open spec fn repeated(fixed: Option<Seq<char>>, repeat: nat) -> Seq<Seq<char>> {
    match fixed {
        Some(f) => Seq::new(repeat, |i: int| f),
        None => Seq::empty(),
    }
}

/// The first `count` generated domains: the format applied to the prefix and
/// to each counter from 0 up; nothing when one of them fails.
pub open spec fn formatted_all(format: Seq<char>, prefix: u32, count: nat) -> Option<Seq<Seq<char>>>
    decreases count,
{
    if count == 0 {
        Some(Seq::empty())
    } else {
        match formatted_all(format, prefix, (count - 1) as nat) {
            Some(before) => match printf_text(format, prefix, (count - 1) as u8) {
                Some(t) => Some(before.push(t)),
                None => None,
            },
            None => None,
        }
    }
}

/// The generated domains for an optional format: none without a format.
pub open spec fn formatted_part(format: Option<Seq<char>>, prefix: u32, repeat: nat) -> Option<Seq<Seq<char>>> {
    match format {
        Some(f) => formatted_all(f, prefix, repeat),
        None => Some(Seq::empty()),
    }
}

/// Reading lines in order: their texts, or the message of the first line
/// that could not be read.
pub open spec fn read_all(lines: Seq<Result<String, String>>) -> Result<Seq<Seq<char>>, Seq<char>>
    decreases lines.len(),
{
    if lines.len() == 0 {
        Ok(Seq::empty())
    } else {
        match lines[0] {
            Err(message) => Err(message@),
            Ok(text) => match read_all(lines.drop_first()) {
                Ok(rest) => Ok(seq![text@] + rest),
                Err(message) => Err(message),
            },
        }
    }
}

/// The domains of a domain file: its lines after the first one, a header,
/// whether or not the header itself could be read; or the message of the
/// first later line that could not be read, or of opening the file. Without
/// a file there are none.
pub open spec fn file_domains(file_lines: Option<Result<Vec<Result<String, String>>, String>>) -> Result<Seq<Seq<char>>, Seq<char>> {
    match file_lines {
        None => Ok(Seq::empty()),
        Some(Err(message)) => Err(message@),
        Some(Ok(lines)) => if lines@.len() == 0 {
            Ok(Seq::empty())
        } else {
            read_all(lines@.drop_first())
        },
    }
}

/// The domains that a read file contributes, before shuffling.
pub open spec fn file_part(file_lines: Option<Result<Vec<Result<String, String>>, String>>) -> Seq<Seq<char>> {
    match file_domains(file_lines) {
        Ok(domains) => domains,
        Err(_) => Seq::empty(),
    }
}

/// Whether the format gives generated domains whatever prefix is drawn.
pub open spec fn format_succeeds_always(config: &DomainConfig) -> bool {
    match opt_view(config.format) {
        None => true,
        Some(f) => (config.repeat == 0 || printf_safe(f))
            && forall|prefix: u32| #[trigger] formatted_all(f, prefix, config.repeat as nat) is Some,
    }
}

/// Whether the format fails whatever prefix is drawn.
pub open spec fn format_fails_always(config: &DomainConfig) -> bool {
    match opt_view(config.format) {
        None => false,
        Some(f) => (config.repeat > 0 && !printf_safe(f))
            || forall|prefix: u32| #[trigger] formatted_all(f, prefix, config.repeat as nat) is None,
    }
}

/// The list of domains: the fixed ones, the generated ones and those of the
/// file, in that order, each with a dot at its end.
pub open spec fn domain_list(fixed: Seq<Seq<char>>, formatted: Seq<Seq<char>>, from_file: Seq<Seq<char>>) -> Seq<Seq<char>> {
    (fixed + formatted + from_file).map_values(|d: Seq<char>| with_trailing_dot(d))
}

/// The list of domains made with this random prefix and this order of the
/// file's domains.
pub open spec fn loaded_with(
    config: &DomainConfig,
    file_lines: Option<Result<Vec<Result<String, String>>, String>>,
    prefix: u32,
    shuffled: Seq<Seq<char>>,
    domains: Seq<Seq<char>>,
) -> bool {
    &&& formatted_part(opt_view(config.format), prefix, config.repeat as nat) is Some
    &&& file_domains(file_lines) is Ok
    &&& shuffled.to_multiset() == file_part(file_lines).to_multiset()
    &&& domains == domain_list(
        repeated(opt_view(config.fixed), config.repeat as nat),
        formatted_part(opt_view(config.format), prefix, config.repeat as nat)->0,
        shuffled,
    )
}

/// The list of domains made with some random prefix and some order of the
/// file's domains.
pub open spec fn loadable(
    config: &DomainConfig,
    file_lines: Option<Result<Vec<Result<String, String>>, String>>,
    domains: Seq<Seq<char>>,
) -> bool {
    exists|prefix: u32, shuffled: Seq<Seq<char>>| #[trigger] loaded_with(config, file_lines, prefix, shuffled, domains)
}

/// The list holds the fixed domains first, then the generated ones, then
/// those of the file, each in its own order and each made fully qualified.
pub proof fn lemma_domain_list_order(fixed: Seq<Seq<char>>, formatted: Seq<Seq<char>>, from_file: Seq<Seq<char>>)
    ensures
        forall|i: int| 0 <= i < fixed.len() ==> #[trigger] domain_list(fixed, formatted, from_file)[i]
            == with_trailing_dot(fixed[i]),
        forall|i: int| 0 <= i < formatted.len() ==> #[trigger] domain_list(fixed, formatted, from_file)[fixed.len() + i]
            == with_trailing_dot(formatted[i]),
        forall|i: int| 0 <= i < from_file.len() ==>
            #[trigger] domain_list(fixed, formatted, from_file)[fixed.len() + formatted.len() + i]
            == with_trailing_dot(from_file[i]),
{
    let all = fixed + formatted + from_file;
    assert forall|i: int| 0 <= i < formatted.len() implies #[trigger] domain_list(fixed, formatted, from_file)[fixed.len() + i]
        == with_trailing_dot(formatted[i]) by {
        assert(all[fixed.len() + i] == formatted[i]);
    }
    assert forall|i: int| 0 <= i < from_file.len() implies
        #[trigger] domain_list(fixed, formatted, from_file)[fixed.len() + formatted.len() + i]
        == with_trailing_dot(from_file[i]) by {
        assert(all[fixed.len() + formatted.len() + i] == from_file[i]);
    }
}

/// When every line of the file could be read, its domains are its lines
/// after the first one, in order: the header is dropped and nothing else.
pub proof fn lemma_file_drops_only_the_header(lines: Vec<Result<String, String>>)
    requires
        lines@.len() > 0,
        forall|i: int| 0 <= i < lines@.len() ==> (#[trigger] lines@[i]) is Ok,
    ensures
        file_domains(Some(Ok(lines))) matches Ok(d) && d.len() == lines@.len() - 1
            && forall|i: int| 0 <= i < d.len() ==> #[trigger] d[i] == lines@[i + 1]->Ok_0@,
{
    lemma_read_all_ok(lines@.drop_first());
}

proof fn lemma_read_all_ok(lines: Seq<Result<String, String>>)
    requires
        forall|i: int| 0 <= i < lines.len() ==> (#[trigger] lines[i]) is Ok,
    ensures
        read_all(lines) matches Ok(d) && d.len() == lines.len()
            && forall|i: int| 0 <= i < d.len() ==> #[trigger] d[i] == lines[i]->Ok_0@,
    decreases lines.len(),
{
    if lines.len() > 0 {
        let rest = lines.drop_first();
        assert forall|i: int| 0 <= i < rest.len() implies (#[trigger] rest[i]) is Ok by {
            assert(rest[i] == lines[i + 1]);
        }
        lemma_read_all_ok(rest);
        assert(lines[0] is Ok);
        let d = read_all(lines)->Ok_0;
        assert forall|i: int| 0 <= i < d.len() implies #[trigger] d[i] == lines[i]->Ok_0@ by {
            if i > 0 {
                assert(rest[i - 1] == lines[i]);
            }
        }
    }
}

/// Every domain of the list ends with a dot, and adding the dot twice changes
/// nothing.
pub proof fn lemma_domains_end_with_dot(fixed: Seq<Seq<char>>, formatted: Seq<Seq<char>>, from_file: Seq<Seq<char>>)
    ensures
        forall|i: int| 0 <= i < domain_list(fixed, formatted, from_file).len() ==> {
            let d = #[trigger] domain_list(fixed, formatted, from_file)[i];
            d.len() > 0 && d.last() == '.' && with_trailing_dot(d) == d
        },
        domain_list(fixed, formatted, from_file).len() == fixed.len() + formatted.len() + from_file.len(),
{
}

/// How many domains a loaded list holds: the fixed domain `repeat` times (if
/// any), `repeat` generated domains (if there is a format), and the file's
/// domains.
pub proof fn lemma_loaded_count(
    config: &DomainConfig,
    file_lines: Option<Result<Vec<Result<String, String>>, String>>,
    domains: Seq<Seq<char>>,
)
    requires
        loadable(config, file_lines, domains),
    ensures
        domains.len() == (if config.fixed is Some { config.repeat as int } else { 0 })
            + (if config.format is Some { config.repeat as int } else { 0 })
            + file_part(file_lines).len(),
{
    let (prefix, shuffled) = choose|prefix: u32, shuffled: Seq<Seq<char>>|
        #[trigger] loaded_with(config, file_lines, prefix, shuffled, domains);
    lemma_multiset_len(shuffled, file_part(file_lines));
    if let Some(f) = opt_view(config.format) {
        lemma_formatted_all_len(f, prefix, config.repeat as nat);
    }
}

proof fn lemma_multiset_len(a: Seq<Seq<char>>, b: Seq<Seq<char>>)
    requires
        a.to_multiset() == b.to_multiset(),
    ensures
        a.len() == b.len(),
{
    a.to_multiset_ensures();
    b.to_multiset_ensures();
}

proof fn lemma_formatted_all_len(format: Seq<char>, prefix: u32, count: nat)
    requires
        formatted_all(format, prefix, count) is Some,
    ensures
        formatted_all(format, prefix, count)->0.len() == count,
    decreases count,
{
    if count > 0 {
        lemma_formatted_all_len(format, prefix, (count - 1) as nat);
    }
}

/// Appends the items, each with a dot at its end.
fn push_normalized(out: &mut Vec<String>, items: &Vec<String>)
    ensures
        final(out).deep_view() == old(out).deep_view() + items.deep_view().map_values(|d: Seq<char>| with_trailing_dot(d)),
{
    let ghost start = out.deep_view();
    let ghost tail = items.deep_view().map_values(|d: Seq<char>| with_trailing_dot(d));
    let mut i: usize = 0;
    while i < items.len()
        invariant
            i <= items.len(),
            items.deep_view().len() == items.len(),
            start == old(out).deep_view(),
            tail == items.deep_view().map_values(|d: Seq<char>| with_trailing_dot(d)),
            out.deep_view() == start + tail.take(i as int),
        decreases items.len() - i,
    {
        let ghost before = out.deep_view();
        let mut d = items[i].clone();
        ensure_trailing_dot(&mut d);
        assert(items.deep_view()[i as int] == items@[i as int]@);
        out.push(d);
        assert(out.deep_view() =~= before.push(tail[i as int]));
        assert(tail.take(i + 1) =~= tail.take(i as int).push(tail[i as int]));
        i = i + 1;
    }
    assert(tail.take(items.len() as int) =~= tail);
}

/// Generates `repeat` domains from the format: the format applied to the
/// prefix and to each counter from 0 up to `repeat - 1`, in that order.
/// Fails as soon as one of them fails.
pub fn formatted_domains(format: &String, prefix: u32, repeat: u8) -> (r: Result<Vec<String>, PrintfError>)
    requires
        repeat == 0 || printf_safe(format@),
    ensures
        r is Ok <==> formatted_all(format@, prefix, repeat as nat) is Some,
        r matches Ok(v) ==> formatted_all(format@, prefix, repeat as nat) == Some(v.deep_view()),
{
    let mut out: Vec<String> = Vec::new();
    let mut i: u8 = 0;
    while i < repeat
        invariant
            i <= repeat,
            repeat == 0 || printf_safe(format@),
            formatted_all(format@, prefix, i as nat) == Some(out.deep_view()),
        decreases repeat - i,
    {
        match format_domain(format.as_str(), prefix, i) {
            Ok(text) => {
                let ghost before = out.deep_view();
                out.push(text);
                assert(out.deep_view() =~= before.push(text@));
            },
            Err(e) => {
                proof {
                    lemma_formatted_all_fails_after(format@, prefix, (i + 1) as nat, repeat as nat);
                }
                return Err(e);
            },
        }
        i = i + 1;
    }
    Ok(out)
}

/// Once generating fails, it fails for every larger count.
proof fn lemma_formatted_all_fails_after(format: Seq<char>, prefix: u32, failed: nat, count: nat)
    requires
        formatted_all(format, prefix, failed) is None,
        failed <= count,
    ensures
        formatted_all(format, prefix, count) is None,
    decreases count - failed,
{
    if failed < count {
        lemma_formatted_all_fails_after(format, prefix, failed, (count - 1) as nat);
    }
}

/// The list of domains from the generated domains and the file's domains as
/// given: the fixed domain `repeat` times, then the generated ones, then
/// those of the file, each with a dot at its end.
pub fn assemble_domains(config: &DomainConfig, formatted: Vec<String>, from_file: Vec<String>) -> (domains: Vec<String>)
    ensures
        domains.deep_view() == domain_list(
            repeated(opt_view(config.fixed), config.repeat as nat),
            formatted.deep_view(),
            from_file.deep_view(),
        ),
{
    let mut fixed_part: Vec<String> = Vec::new();
    match &config.fixed {
        Some(fixed) => {
            let mut i: u8 = 0;
            while i < config.repeat
                invariant
                    i <= config.repeat,
                    fixed_part.deep_view() == Seq::new(i as nat, |k: int| fixed@),
                decreases config.repeat - i,
            {
                let ghost before = fixed_part.deep_view();
                fixed_part.push(fixed.clone());
                assert(fixed_part.deep_view() =~= before.push(fixed@));
                assert(fixed_part.deep_view() =~= Seq::new((i + 1) as nat, |k: int| fixed@));
                i = i + 1;
            }
        },
        None => {},
    }
    assert(fixed_part.deep_view() =~= repeated(opt_view(config.fixed), config.repeat as nat));
    let mut domains: Vec<String> = Vec::new();
    push_normalized(&mut domains, &fixed_part);
    push_normalized(&mut domains, &formatted);
    push_normalized(&mut domains, &from_file);
    assert(domains.deep_view() =~= domain_list(
        repeated(opt_view(config.fixed), config.repeat as nat),
        formatted.deep_view(),
        from_file.deep_view(),
    ));
    domains
}

/// The characters of a text.
fn chars_of(text: &String) -> (chars: Vec<char>)
    ensures
        chars@ == text@,
{
    let n: usize = text.as_str().unicode_len();
    let mut chars: Vec<char> = Vec::new();
    let mut i: usize = 0;
    while i < n
        invariant
            i <= n,
            n == text@.len(),
            chars@ == text@.take(i as int),
        decreases n - i,
    {
        chars.push(text.as_str().get_char(i));
        assert(chars@ =~= text@.take(i + 1));
        i = i + 1;
    }
    assert(text@.take(n as int) =~= text@);
    chars
}

fn is_digit_char(c: char) -> (b: bool)
    ensures
        b == is_ascii_digit(c),
{
    '0' <= c && c <= '9'
}

fn skip_flags_at(chars: &Vec<char>, i: usize) -> (j: usize)
    requires
        i <= chars.len(),
    ensures
        j == skip_flags(chars@, i as int),
        i <= j <= chars.len(),
{
    let mut j: usize = i;
    while j < chars.len() && (chars[j] == '#' || chars[j] == '0' || chars[j] == '-' || chars[j] == ' ' || chars[j] == '+')
        invariant
            i <= j <= chars.len(),
            skip_flags(chars@, j as int) == skip_flags(chars@, i as int),
        decreases chars.len() - j,
    {
        j = j + 1;
    }
    j
}

fn digits_end_at(chars: &Vec<char>, i: usize) -> (j: usize)
    requires
        i <= chars.len(),
    ensures
        j == digits_end(chars@, i as int),
        i <= j <= chars.len(),
{
    let mut j: usize = i;
    while j < chars.len() && is_digit_char(chars[j])
        invariant
            i <= j <= chars.len(),
            digits_end(chars@, j as int) == digits_end(chars@, i as int),
        decreases chars.len() - j,
    {
        j = j + 1;
    }
    j
}

fn param_end_at(chars: &Vec<char>, i: usize) -> (j: usize)
    requires
        i <= chars.len(),
    ensures
        j == param_end(chars@, i as int),
        i <= j <= chars.len(),
{
    if i < chars.len() && chars[i] == '*' {
        i + 1
    } else {
        digits_end_at(chars, i)
    }
}

fn param_overflows_at(chars: &Vec<char>, i: usize) -> (b: bool)
    requires
        i <= chars.len(),
    ensures
        b == param_overflows(chars@, i as int),
{
    if i >= chars.len() || !is_digit_char(chars[i]) {
        return false;
    }
    let limit: u64 = 2147483648;
    let mut capped: u64 = 0;
    let mut j: usize = i;
    while j < chars.len() && is_digit_char(chars[j])
        invariant
            i <= j <= chars.len(),
            limit == 2147483648u64,
            digits_end(chars@, j as int) == digits_end(chars@, i as int),
            capped == if digits_value(chars@, i as int, j as int) < limit { digits_value(chars@, i as int, j as int) } else { limit as int },
            digits_value(chars@, i as int, j as int) >= 0,
        decreases chars.len() - j,
    {
        let c: char = chars[j];
        let d: u64 = (c as u32 - 48u32) as u64;
        assert(d == ascii_digit_value(chars@[j as int]) && d <= 9);
        assert(digits_value(chars@, i as int, j + 1) == digits_value(chars@, i as int, j as int) * 10 + d);
        if capped >= limit {
            capped = limit;
        } else {
            assert(capped < 2147483648u64);
            assert(capped * 10 + d <= 21474836489u64) by (nonlinear_arith)
                requires
                    capped < 2147483648u64,
                    d <= 9,
            ;
            let next: u64 = capped * 10 + d;
            capped = if next < limit { next } else { limit };
        }
        j = j + 1;
    }
    capped > 2147483647
}

fn skip_length_at(chars: &Vec<char>, i: usize) -> (j: usize)
    requires
        i <= chars.len(),
    ensures
        j == skip_length(chars@, i as int),
        i <= j <= chars.len(),
{
    let n: usize = chars.len();
    if i < n && i + 1 < n && chars[i] == 'h' && chars[i + 1] == 'h' {
        i + 2
    } else if i < n && i + 1 < n && chars[i] == 'l' && chars[i + 1] == 'l' {
        i + 2
    } else if i < n && (chars[i] == 'h' || chars[i] == 'l' || chars[i] == 'q' || chars[i] == 'L' || chars[i] == 'j'
        || chars[i] == 'z' || chars[i] == 'Z' || chars[i] == 't') {
        i + 1
    } else {
        i
    }
}

fn is_conversion_char(c: char) -> (b: bool)
    ensures
        b == is_printf_conversion(c),
{
    c == 'i' || c == 'd' || c == 'u' || c == 'o' || c == 'x' || c == 'X' || c == 'e' || c == 'E'
        || c == 'f' || c == 'F' || c == 'g' || c == 'G' || c == 'c' || c == 'C' || c == 's' || c == 'S'
        || c == 'p' || c == '%'
}

/// Whether the format can be handed to `sprintf`: no width or precision in
/// it, as `sprintf` parses the format, is larger than `i32::MAX`.
pub fn format_is_printf_safe(format: &String) -> (safe: bool)
    ensures
        safe == printf_safe(format@),
{
    let chars = chars_of(format);
    let ghost s = chars@;
    let n: usize = chars.len();
    let mut i: usize = 0;
    while i < n
        invariant
            i <= n,
            n == s.len(),
            s == chars@,
            s == format@,
            printf_overflows_from(s, i as int) == printf_overflows_from(s, 0),
        decreases n - i,
    {
        if chars[i] != '%' {
            i = i + 1;
        } else {
            let w = skip_flags_at(&chars, i + 1);
            assert(w == width_start(s, i + 1));
            if param_overflows_at(&chars, w) {
                return false;
            }
            let we = param_end_at(&chars, w);
            let mut p = we;
            if we < n && chars[we] == '.' {
                assert(has_precision(s, i + 1));
                assert(precision_start(s, i + 1) == we + 1);
                if param_overflows_at(&chars, we + 1) {
                    return false;
                }
                p = param_end_at(&chars, we + 1);
            } else {
                assert(!has_precision(s, i + 1));
            }
            let c = skip_length_at(&chars, p);
            assert(c == conversion_at(s, i + 1));
            if c < n && is_conversion_char(chars[c]) {
                i = c + 1;
            } else {
                return true;
            }
        }
    }
    true
}

/// The lines read in order, or the message of the first that could not be read.
fn read_lines_from(lines: &Vec<Result<String, String>>, start: usize) -> (r: Result<Vec<String>, String>)
    requires
        start <= lines.len(),
    ensures
        match r {
            Ok(v) => read_all(lines@.subrange(start as int, lines.len() as int)) == Ok::<Seq<Seq<char>>, Seq<char>>(v.deep_view()),
            Err(m) => read_all(lines@.subrange(start as int, lines.len() as int)) == Err::<Seq<Seq<char>>, Seq<char>>(m@),
        },
    decreases lines.len() - start,
{
    if start == lines.len() {
        let empty: Vec<String> = Vec::new();
        assert(empty.deep_view() =~= Seq::<Seq<char>>::empty());
        return Ok(empty);
    }
    let ghost rest = lines@.subrange(start as int, lines.len() as int);
    assert(rest.drop_first() =~= lines@.subrange(start + 1, lines.len() as int));
    assert(rest[0] == lines@[start as int]);
    match &lines[start] {
        Err(message) => Err(message.clone()),
        Ok(text) => {
            match read_lines_from(lines, start + 1) {
                Ok(later) => {
                    let mut v: Vec<String> = Vec::new();
                    v.push(text.clone());
                    let mut i: usize = 0;
                    while i < later.len()
                        invariant
                            i <= later.len(),
                            later.deep_view().len() == later.len(),
                            v.deep_view() == seq![text@] + later.deep_view().take(i as int),
                        decreases later.len() - i,
                    {
                        let ghost before = v.deep_view();
                        v.push(later[i].clone());
                        assert(later.deep_view()[i as int] == later@[i as int]@);
                        assert(v.deep_view() =~= before.push(later@[i as int]@));
                        assert(later.deep_view().take(i + 1) =~= later.deep_view().take(i as int).push(later@[i as int]@));
                        i = i + 1;
                    }
                    assert(later.deep_view().take(later.len() as int) =~= later.deep_view());
                    Ok(v)
                },
                Err(message) => Err(message),
            }
        },
    }
}

/// The domains of a read domain file: all lines after the first one, which
/// is a header and is dropped whether or not it could be read; or the
/// message of the first later line that could not be read.
pub fn domain_file_lines(lines: &Vec<Result<String, String>>) -> (r: Result<Vec<String>, String>)
    ensures
        match r {
            Ok(v) => file_domains(Some(Ok(*lines))) == Ok::<Seq<Seq<char>>, Seq<char>>(v.deep_view()),
            Err(m) => file_domains(Some(Ok(*lines))) == Err::<Seq<Seq<char>>, Seq<char>>(m@),
        },
{
    if lines.len() == 0 {
        let empty: Vec<String> = Vec::new();
        assert(empty.deep_view() =~= Seq::<Seq<char>>::empty());
        Ok(empty)
    } else {
        assert(lines@.subrange(1, lines.len() as int) =~= lines@.drop_first());
        read_lines_from(lines, 1)
    }
}

/// The domains to query: the fixed domain `repeat` times; then `repeat`
/// domains generated from the format with one random prefix and the counters
/// from 0 up; then the domains of the file, in a random order; each with a
/// dot at its end. `file_lines` holds what reading the configured file gave:
/// the result of reading each of its lines in order, or the message of
/// opening it; the first line is a header and is dropped.
pub fn load_domains(config: &DomainConfig, file_lines: Option<Result<Vec<Result<String, String>>, String>>) -> (r: Result<Vec<String>, DomainError>)
    requires
        config.file is Some <==> file_lines is Some,
    ensures
        r matches Ok(domains) ==> loadable(config, file_lines, domains.deep_view()),
        r matches Err(DomainError::FormatNumberTooLarge) <==> (config.format is Some && config.repeat > 0
            && !printf_safe(opt_view(config.format)->0)),
        r matches Err(DomainError::Format(_)) ==> config.format is Some
            && printf_safe(opt_view(config.format)->0)
            && exists|prefix: u32| #[trigger] formatted_all(opt_view(config.format)->0, prefix, config.repeat as nat) is None,
        r matches Err(DomainError::File(message)) ==> file_domains(file_lines) == Err::<Seq<Seq<char>>, Seq<char>>(message@)
            && !(config.format is Some && config.repeat > 0 && !printf_safe(opt_view(config.format)->0))
            && exists|prefix: u32| #[trigger] formatted_part(opt_view(config.format), prefix, config.repeat as nat) is Some,
        format_fails_always(config) ==> (r matches Err(DomainError::FormatNumberTooLarge)
            || r matches Err(DomainError::Format(_))),
        (format_succeeds_always(config) && file_domains(file_lines) is Ok) ==> r is Ok,
        (format_fails_always(config) || file_domains(file_lines) is Err) ==> r is Err,
{
    let mut prefix: u32 = 0;
    let formatted = match &config.format {
        Some(format) => {
            if config.repeat > 0 && !format_is_printf_safe(format) {
                return Err(DomainError::FormatNumberTooLarge);
            }
            prefix = random_prefix();
            match formatted_domains(format, prefix, config.repeat) {
                Ok(v) => v,
                Err(e) => {
                    assert(formatted_all(opt_view(config.format)->0, prefix, config.repeat as nat) is None);
                    return Err(DomainError::Format(e));
                },
            }
        },
        None => Vec::new(),
    };
    assert(formatted_part(opt_view(config.format), prefix, config.repeat as nat) == Some(formatted.deep_view()));
    let ghost lines_view = file_lines;
    let from_file = match file_lines {
        Some(Ok(lines)) => {
            match domain_file_lines(&lines) {
                Ok(body) => {
                    let mut body = body;
                    assert(body.deep_view() == file_part(lines_view));
                    shuffle_lines(&mut body);
                    body
                },
                Err(message) => {
                    return Err(DomainError::File(message));
                },
            }
        },
        Some(Err(message)) => {
            return Err(DomainError::File(message));
        },
        None => {
            let empty: Vec<String> = Vec::new();
            assert(empty.deep_view() =~= file_part(lines_view));
            empty
        },
    };
    assert(from_file.deep_view().to_multiset() == file_part(lines_view).to_multiset());
    let domains = assemble_domains(config, formatted, from_file);
    assert(loaded_with(config, file_lines, prefix, from_file.deep_view(), domains.deep_view()));
    assert(loadable(config, file_lines, domains.deep_view()));
    Ok(domains)
}

} // verus!
