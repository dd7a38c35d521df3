//! The control file of the demo cluster: each line such as `5: Down //`,
//! `1: Up //` or `2: Apply -11//` tells one replica to go down, to come back
//! up, or to apply a change to the replicated value.
use vstd::prelude::*;
use vstd::string::{StrSliceExecFns, StringExecFns};

verus! {

/// A forced state change for a replica of the demo cluster.
#[derive(Clone, Copy, Debug, PartialEq, Eq, Structural)]
pub enum ControlMessage {
    Up,
    Down,
    Apply(i32),
}

/// The position of the first c in s at or after from, or the length of s if
/// there is none.
pub open spec fn first_index_of(s: Seq<char>, c: char, from: int) -> int
    decreases s.len() - from,
{
    if from >= s.len() {
        s.len() as int
    } else if s[from] == c {
        from
    } else {
        first_index_of(s, c, from + 1)
    }
}

/// The position of the first occurrence of pat in s at or after from, or the
/// length of s if there is none.
pub open spec fn first_occurrence(s: Seq<char>, pat: Seq<char>, from: int) -> int
    decreases s.len() - from,
{
    if from < 0 || from >= s.len() || from + pat.len() > s.len() {
        s.len() as int
    } else if s.subrange(from, from + pat.len()) == pat {
        from
    } else {
        first_occurrence(s, pat, from + 1)
    }
}

/// Whether c is an ASCII decimal digit.
pub open spec fn is_digit(c: char) -> bool {
    '0' <= c && c <= '9'
}

/// The value of a decimal digit.
pub open spec fn digit_value(c: char) -> int {
    c as int - '0' as int
}

/// The value of a sequence of decimal digits.
pub open spec fn digits_value(ds: Seq<char>) -> int
    decreases ds.len(),
{
    if ds.len() == 0 {
        0
    } else {
        10 * digits_value(ds.drop_last()) + digit_value(ds.last())
    }
}

/// A non-empty sequence of decimal digits.
pub open spec fn all_digits(ds: Seq<char>) -> bool {
    &&& ds.len() > 0
    &&& forall|i: int| 0 <= i < ds.len() ==> is_digit(#[trigger] ds[i])
}

/// The digits of an unsigned number: what follows an optional `+`.
pub open spec fn unsigned_digits(s: Seq<char>) -> Seq<char> {
    if s.len() > 0 && s[0] == '+' {
        s.drop_first()
    } else {
        s
    }
}

/// Whether s is the decimal text of a usize: an optional `+` and then one
/// or more digits whose value fits.
pub open spec fn parses_as_usize(s: Seq<char>) -> bool {
    &&& all_digits(unsigned_digits(s))
    &&& digits_value(unsigned_digits(s)) <= usize::MAX
}

/// The digits of a signed number: what follows an optional `+` or `-`.
pub open spec fn signed_digits(s: Seq<char>) -> Seq<char> {
    if s.len() > 0 && (s[0] == '+' || s[0] == '-') {
        s.drop_first()
    } else {
        s
    }
}

/// The value of the decimal text of a signed number.
pub open spec fn signed_value(s: Seq<char>) -> int {
    if s.len() > 0 && s[0] == '-' {
        -digits_value(signed_digits(s))
    } else {
        digits_value(signed_digits(s))
    }
}

/// Whether s is the decimal text of an i32: an optional sign and then one
/// or more digits whose value fits.
pub open spec fn parses_as_i32(s: Seq<char>) -> bool {
    &&& all_digits(signed_digits(s))
    &&& i32::MIN <= signed_value(s) <= i32::MAX
}

/// The text of a control line before its first colon.
pub open spec fn control_line_head(s: Seq<char>) -> Seq<char> {
    s.take(first_index_of(s, ':', 0))
}

/// The text of a control line between its first colon and the next one.
pub open spec fn control_line_field(s: Seq<char>) -> Seq<char> {
    let p = first_index_of(s, ':', 0);
    s.subrange(p + 1, first_index_of(s, ':', p + 1))
}

/// The characters of cs other than slashes and spaces, in order.
pub open spec fn strip_command(cs: Seq<char>) -> Seq<char>
    decreases cs.len(),
{
    if cs.len() == 0 {
        seq![]
    } else {
        let rest = strip_command(cs.drop_last());
        if cs.last() != '/' && cs.last() != ' ' {
            rest.push(cs.last())
        } else {
            rest
        }
    }
}

/// A control line that can be read: it has a colon, and what precedes the
/// first colon is the decimal index of a replica.
pub open spec fn valid_control_line(s: Seq<char>) -> bool {
    &&& first_index_of(s, ':', 0) < s.len()
    &&& parses_as_usize(control_line_head(s))
}

/// The word that introduces a change to apply.
pub open spec fn apply_word() -> Seq<char> {
    seq!['A', 'p', 'p', 'l', 'y']
}

/// Whether a command mentions a change to apply.
pub open spec fn mentions_apply(cmd: Seq<char>) -> bool {
    first_occurrence(cmd, apply_word(), 0) < cmd.len()
}

/// The text of a command between its first `Apply` and the next one.
pub open spec fn apply_argument(cmd: Seq<char>) -> Seq<char> {
    let a = first_occurrence(cmd, apply_word(), 0);
    cmd.subrange(a + 5, first_occurrence(cmd, apply_word(), a + 5))
}

/// A command that can be read: if it mentions `Apply`, what follows is the
/// decimal text of an i32.
pub open spec fn valid_control_command(cmd: Seq<char>) -> bool {
    mentions_apply(cmd) ==> parses_as_i32(apply_argument(cmd))
}

/// The control message a command stands for: a command that mentions
/// `Apply` applies the number that follows it, `Up` and `Down` stand for
/// themselves, and any other command for none.
pub open spec fn control_message_of(cmd: Seq<char>) -> Option<ControlMessage> {
    if mentions_apply(cmd) {
        Some(ControlMessage::Apply(signed_value(apply_argument(cmd)) as i32))
    } else if cmd == seq!['U', 'p'] {
        Some(ControlMessage::Up)
    } else if cmd == seq!['D', 'o', 'w', 'n'] {
        Some(ControlMessage::Down)
    } else {
        None
    }
}

proof fn lemma_first_index_of(s: Seq<char>, c: char, from: int, i: int)
    requires
        0 <= from <= i <= s.len(),
        forall|j: int| from <= j < i ==> s[j] != c,
        i == s.len() || s[i] == c,
    ensures
        first_index_of(s, c, from) == i,
    decreases i - from,
{
    if from < i {
        lemma_first_index_of(s, c, from + 1, i);
    }
}

proof fn lemma_first_occurrence(s: Seq<char>, pat: Seq<char>, from: int, i: int)
    requires
        0 <= from <= i < s.len(),
        forall|j: int|
            from <= j < i && j + pat.len() <= s.len() ==> #[trigger] s.subrange(j, j + pat.len())
                != pat,
        i + pat.len() <= s.len(),
        s.subrange(i, i + pat.len()) == pat,
    ensures
        first_occurrence(s, pat, from) == i,
    decreases i - from,
{
    if from < i {
        lemma_first_occurrence(s, pat, from + 1, i);
    }
}

proof fn lemma_no_occurrence(s: Seq<char>, pat: Seq<char>, from: int)
    requires
        0 <= from,
        forall|j: int|
            from <= j < s.len() && j + pat.len() <= s.len() ==> #[trigger] s.subrange(
                j,
                j + pat.len(),
            ) != pat,
    ensures
        first_occurrence(s, pat, from) == s.len(),
    decreases s.len() - from,
{
    if from < s.len() && from + pat.len() <= s.len() {
        lemma_no_occurrence(s, pat, from + 1);
    }
}

proof fn lemma_digits_value_nonneg(ds: Seq<char>)
    requires
        forall|i: int| 0 <= i < ds.len() ==> is_digit(#[trigger] ds[i]),
    ensures
        digits_value(ds) >= 0,
    decreases ds.len(),
{
    if ds.len() > 0 {
        lemma_digits_value_nonneg(ds.drop_last());
    }
}

/// A longer sequence of digits has at least the value of its prefix.
proof fn lemma_digits_value_monotonic(ds: Seq<char>, i: int)
    requires
        0 <= i <= ds.len(),
        forall|k: int| 0 <= k < ds.len() ==> is_digit(#[trigger] ds[k]),
    ensures
        digits_value(ds.take(i)) <= digits_value(ds),
    decreases ds.len() - i,
{
    if i < ds.len() {
        let d = ds.take(i + 1);
        assert(d.drop_last() =~= ds.take(i));
        assert(forall|k: int| 0 <= k < ds.take(i).len() ==> ds.take(i)[k] == ds[k]);
        lemma_digits_value_nonneg(ds.take(i));
        lemma_digits_value_monotonic(ds, i + 1);
    } else {
        assert(ds.take(i) =~= ds);
    }
}

/// The position of the first c in s at or after from, or the length of s.
fn find_char(s: &str, c: char, from: usize) -> (i: usize)
    requires
        from <= s@.len(),
    ensures
        i == first_index_of(s@, c, from as int),
        from <= i <= s@.len(),
        s@.len() <= usize::MAX,
{
    let n = s.unicode_len();
    let mut i = from;
    while i < n
        invariant
            n == s@.len(),
            from <= i <= n,
            forall|j: int| from <= j < i ==> s@[j] != c,
        decreases n - i,
    {
        if s.get_char(i) == c {
            proof {
                lemma_first_index_of(s@, c, from as int, i as int);
            }
            return i;
        }
        i = i + 1;
    }
    proof {
        lemma_first_index_of(s@, c, from as int, i as int);
    }
    i
}

/// Whether pat occurs in s at position i.
fn occurs_at(s: &str, pat: &str, i: usize) -> (b: bool)
    requires
        i <= s@.len(),
    ensures
        b == (i + pat@.len() <= s@.len() && s@.subrange(i as int, i + pat@.len()) == pat@),
{
    let n = s.unicode_len();
    let m = pat.unicode_len();
    if m > n - i {
        return false;
    }
    let mut k: usize = 0;
    while k < m
        invariant
            n == s@.len(),
            m == pat@.len(),
            i + m <= n,
            k <= m,
            forall|j: int| 0 <= j < k ==> s@[i + j] == pat@[j],
        decreases m - k,
    {
        if s.get_char(i + k) != pat.get_char(k) {
            assert(s@.subrange(i as int, i + m)[k as int] != pat@[k as int]);
            return false;
        }
        k = k + 1;
    }
    assert(s@.subrange(i as int, i + m) =~= pat@);
    true
}

/// The position of the first occurrence of pat in s at or after from, or the
/// length of s.
fn find_pattern(s: &str, pat: &str, from: usize) -> (i: usize)
    requires
        from <= s@.len(),
    ensures
        i == first_occurrence(s@, pat@, from as int),
        from <= i <= s@.len(),
        i < s@.len() ==> i + pat@.len() <= s@.len() && s@.subrange(i as int, i + pat@.len()) == pat@,
{
    let n = s.unicode_len();
    let mut i = from;
    while i < n
        invariant
            n == s@.len(),
            from <= i <= n,
            forall|j: int|
                from <= j < i && j + pat@.len() <= s@.len() ==> #[trigger] s@.subrange(
                    j,
                    j + pat@.len(),
                ) != pat@,
        decreases n - i,
    {
        if occurs_at(s, pat, i) {
            proof {
                lemma_first_occurrence(s@, pat@, from as int, i as int);
            }
            return i;
        }
        i = i + 1;
    }
    proof {
        lemma_no_occurrence(s@, pat@, from as int);
    }
    n
}

/// The value of the digits of s in [from, to), if they are one or more
/// digits whose value is at most limit.
fn parse_digits(s: &str, from: usize, to: usize, limit: u64) -> (r: Option<u64>)
    requires
        from <= to <= s@.len(),
    ensures
        r is Some <==> all_digits(s@.subrange(from as int, to as int)) && digits_value(
            s@.subrange(from as int, to as int),
        ) <= limit,
        r matches Some(v) ==> v == digits_value(s@.subrange(from as int, to as int)),
{
    let ghost ds = s@.subrange(from as int, to as int);
    if from == to {
        return None;
    }
    let mut acc: u64 = 0;
    let mut i = from;
    while i < to
        invariant
            from <= i <= to <= s@.len(),
            ds == s@.subrange(from as int, to as int),
            forall|k: int| 0 <= k < i - from ==> is_digit(#[trigger] ds[k]),
            acc == digits_value(ds.take(i - from)),
            acc <= limit,
        decreases to - i,
    {
        let c = s.get_char(i);
        if c < '0' || c > '9' {
            assert(!is_digit(ds[i - from]));
            return None;
        }
        let d = (c as u32 - '0' as u32) as u64;
        assert(ds.take(i - from + 1).drop_last() =~= ds.take(i - from));
        assert(ds.take(i - from + 1).last() == c);
        let next: u128 = (acc as u128) * 10 + (d as u128);
        if next > limit as u128 {
            proof {
                assert(10 * acc + d > limit);
                let j = i - from + 1;
                assert forall|k: int| 0 <= k < ds.take(j).len() implies is_digit(
                    #[trigger] ds.take(j)[k],
                ) by {}
                let tail_digits = forall|k: int| 0 <= k < ds.len() ==> is_digit(#[trigger] ds[k]);
                if tail_digits {
                    lemma_digits_value_monotonic(ds, j);
                }
            }
            return None;
        }
        acc = next as u64;
        i = i + 1;
    }
    assert(ds.take(to - from) =~= ds);
    Some(acc)
}

/// The value of the decimal text of a usize in [from, to) of s, as
/// `str::parse::<usize>` reads it, if it is one.
fn parse_usize(s: &str, from: usize, to: usize) -> (r: Option<usize>)
    requires
        from <= to <= s@.len(),
    ensures
        r is Some <==> parses_as_usize(s@.subrange(from as int, to as int)),
        r matches Some(v) ==> v == digits_value(unsigned_digits(s@.subrange(from as int, to as int))),
{
    let ghost t = s@.subrange(from as int, to as int);
    let start = if from < to && s.get_char(from) == '+' {
        from + 1
    } else {
        from
    };
    assert(unsigned_digits(t) =~= s@.subrange(start as int, to as int));
    match parse_digits(s, start, to, usize::MAX as u64) {
        Some(v) => Some(v as usize),
        None => None,
    }
}

/// The value of the decimal text of an i32 in [from, to) of s, as
/// `str::parse::<i32>` reads it, if it is one.
fn parse_i32(s: &str, from: usize, to: usize) -> (r: Option<i32>)
    requires
        from <= to <= s@.len(),
    ensures
        r is Some <==> parses_as_i32(s@.subrange(from as int, to as int)),
        r matches Some(v) ==> v == signed_value(s@.subrange(from as int, to as int)),
{
    let ghost t = s@.subrange(from as int, to as int);
    let negative = from < to && s.get_char(from) == '-';
    let start = if from < to && (s.get_char(from) == '+' || s.get_char(from) == '-') {
        from + 1
    } else {
        from
    };
    assert(signed_digits(t) =~= s@.subrange(start as int, to as int));
    let limit: u64 = if negative {
        2147483648
    } else {
        2147483647
    };
    match parse_digits(s, start, to, limit) {
        Some(v) => {
            if negative {
                Some((0 - (v as i64)) as i32)
            } else {
                Some(v as i32)
            }
        },
        None => {
            proof {
                if all_digits(signed_digits(t)) {
                    lemma_digits_value_nonneg(signed_digits(t));
                }
            }
            None
        },
    }
}

/// Whether a control line can be read: see valid_control_line.
pub fn is_valid_control_line(s: &str) -> (b: bool)
    ensures
        b == valid_control_line(s@),
{
    let n = s.unicode_len();
    let p = find_char(s, ':', 0);
    if p >= n {
        return false;
    }
    assert(control_line_head(s@) =~= s@.subrange(0, p as int));
    parse_usize(s, 0, p).is_some()
}

/// Whether a control line is complete: it holds `//`.
pub fn is_complete_control_line(s: &str) -> (b: bool)
    ensures
        b == (first_occurrence(s@, seq!['/', '/'], 0) < s@.len()),
{
    let n = s.unicode_len();
    let marker = "//";
    proof {
        reveal_strlit("//");
    }
    assert(marker@ =~= seq!['/', '/']);
    find_pattern(s, marker, 0) < n
}

/// Reads a control line such as `2: Apply -11//`: the index of the replica
/// before the first colon, and the command between the first colon and the
/// next one with its slashes and spaces taken out.
pub fn parse_control_line(s: &str) -> (r: (usize, String))
    requires
        valid_control_line(s@),
    ensures
        r.0 == digits_value(unsigned_digits(control_line_head(s@))),
        r.1@ == strip_command(control_line_field(s@)),
{
    let p = find_char(s, ':', 0);
    assert(control_line_head(s@) =~= s@.subrange(0, p as int));
    let idx = parse_usize(s, 0, p).unwrap();
    assert(p < s@.len());
    let q = find_char(s, ':', p + 1);
    let mut command = String::new();
    let mut i = p + 1;
    assert(s@.subrange(p + 1, i as int) =~= seq![]);
    while i < q
        invariant
            p + 1 <= i <= q <= s@.len(),
            command@ == strip_command(s@.subrange(p + 1, i as int)),
        decreases q - i,
    {
        let c = s.get_char(i);
        assert(s@.subrange(p + 1, i + 1).drop_last() =~= s@.subrange(p + 1, i as int));
        if c != '/' && c != ' ' {
            command.append(s.substring_char(i, i + 1));
            assert(s@.subrange(i as int, i + 1) =~= seq![c]);
        }
        i = i + 1;
    }
    (idx, command)
}

/// Whether a command can be read: see valid_control_command.
pub fn is_valid_control_command(command: &str) -> (b: bool)
    ensures
        b == valid_control_command(command@),
{
    let n = command.unicode_len();
    let apply = "Apply";
    proof {
        reveal_strlit("Apply");
    }
    assert(apply@ == apply_word());
    let a = find_pattern(command, apply, 0);
    if a >= n {
        return true;
    }
    let b = find_pattern(command, apply, a + 5);
    parse_i32(command, a + 5, b).is_some()
}

/// Whether two strings hold the same characters.
fn str_equals(s: &str, t: &str) -> (b: bool)
    ensures
        b == (s@ == t@),
{
    let n = s.unicode_len();
    if n != t.unicode_len() {
        return false;
    }
    let b = occurs_at(s, t, 0);
    assert(s@.subrange(0, n as int) =~= s@);
    b
}

/// The control message that a command stands for: see control_message_of.
pub fn parse_control_message(command: &str) -> (r: Option<ControlMessage>)
    requires
        valid_control_command(command@),
    ensures
        r == control_message_of(command@),
{
    let n = command.unicode_len();
    let apply = "Apply";
    proof {
        reveal_strlit("Apply");
        reveal_strlit("Up");
        reveal_strlit("Down");
    }
    assert(apply@ == apply_word());
    let a = find_pattern(command, apply, 0);
    if a < n {
        let b = find_pattern(command, apply, a + 5);
        let delta = parse_i32(command, a + 5, b).unwrap();
        return Some(ControlMessage::Apply(delta));
    }
    if str_equals(command, "Up") {
        assert("Up"@ =~= seq!['U', 'p']);
        Some(ControlMessage::Up)
    } else if str_equals(command, "Down") {
        assert("Down"@ =~= seq!['D', 'o', 'w', 'n']);
        Some(ControlMessage::Down)
    } else {
        assert("Up"@ =~= seq!['U', 'p']);
        assert("Down"@ =~= seq!['D', 'o', 'w', 'n']);
        None
    }
}

/// The position where line k of a text starts.
pub open spec fn line_start(s: Seq<char>, k: nat) -> int
    decreases k,
{
    if k == 0 {
        0
    } else {
        first_index_of(s, '\n', line_start(s, (k - 1) as nat)) + 1
    }
}

/// Whether a text has a line k: each line before it ends with a newline.
pub open spec fn has_line(s: Seq<char>, k: nat) -> bool
    decreases k,
{
    k == 0 || (has_line(s, (k - 1) as nat) && first_index_of(s, '\n', line_start(s, (k - 1) as nat))
        < s.len())
}

/// Line k of a text, without its newline.
pub open spec fn line_of(s: Seq<char>, k: nat) -> Seq<char> {
    s.subrange(line_start(s, k), first_index_of(s, '\n', line_start(s, k)))
}

/// What reading one line of the control file gives.
#[derive(Clone, Copy, Debug, PartialEq, Eq, Structural)]
pub enum ControlRead {
    /// The line is not there yet, or not complete: it is read again later.
    Wait,
    /// The line is read: the replica it is for, and the message it tells
    /// it, if it names one.
    Read { id: usize, message: Option<ControlMessage> },
    /// The line is complete but its index is not a number.
    BadIndex,
    /// The line is complete but its command names a change that is not a
    /// number.
    BadCommand,
}

/// What reading line k of the control file text gives: see read_control_file.
pub open spec fn control_read_of(s: Seq<char>, k: nat) -> ControlRead {
    let line = line_of(s, k);
    if !(has_line(s, k) && first_occurrence(line, seq!['/', '/'], 0) < line.len()) {
        ControlRead::Wait
    } else if !valid_control_line(line) {
        ControlRead::BadIndex
    } else {
        let cmd = strip_command(control_line_field(line));
        if !valid_control_command(cmd) {
            ControlRead::BadCommand
        } else {
            ControlRead::Read {
                id: digits_value(unsigned_digits(control_line_head(line))) as usize,
                message: control_message_of(cmd),
            }
        }
    }
}

/// A text without line k has no later line.
proof fn lemma_no_later_line(s: Seq<char>, k: nat, m: nat)
    requires
        !has_line(s, k),
        k <= m,
    ensures
        !has_line(s, m),
    decreases m - k,
{
    if k < m {
        lemma_no_later_line(s, k, (m - 1) as nat);
    }
}

/// Reads line next of the text of the control file: the line is consumed
/// once it is complete, that is once it holds `//`; a complete line names
/// the replica it is for before its first colon, and a command after it.
pub fn read_control_file(text: &str, next: usize) -> (r: ControlRead)
    ensures
        r == control_read_of(text@, next as nat),
{
    let n = text.unicode_len();
    let mut start: usize = 0;
    let mut k: usize = 0;
    while k < next
        invariant
            k <= next,
            n == text@.len(),
            has_line(text@, k as nat),
            start == line_start(text@, k as nat),
            start <= n,
        decreases next - k,
    {
        let e = find_char(text, '\n', start);
        if e >= n {
            proof {
                assert(!has_line(text@, (k + 1) as nat));
                lemma_no_later_line(text@, (k + 1) as nat, next as nat);
            }
            return ControlRead::Wait;
        }
        start = e + 1;
        k = k + 1;
    }
    let e = find_char(text, '\n', start);
    let line = text.substring_char(start, e);
    assert(line@ == line_of(text@, next as nat));
    if !is_complete_control_line(line) {
        return ControlRead::Wait;
    }
    if !is_valid_control_line(line) {
        return ControlRead::BadIndex;
    }
    let (id, command) = parse_control_line(line);
    if !is_valid_control_command(command.as_str()) {
        return ControlRead::BadCommand;
    }
    ControlRead::Read { id, message: parse_control_message(command.as_str()) }
}

} // verus!
