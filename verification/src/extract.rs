//! Recognising inclusion directives in the lines of a header file and
//! extracting the raw header reference each one names.

use vstd::prelude::*;

verus! {

/// Characters treated as whitespace when the directive line is split into
/// tokens. Carriage returns are whitespace so that lines from files with
/// Windows line endings are handled.
pub open spec fn is_space(c: char) -> bool {
    c == ' ' || c == '\t' || c == '\r'
}

/// A line is an inclusion directive when it begins with the eight characters
/// of the directive keyword (`#` followed by the keyword) and mentions no
/// `<` anywhere: angle-bracket system headers are deliberately excluded, as
/// the tool only tracks project-local header dependencies.
pub open spec fn spec_is_directive_line(s: Seq<char>) -> bool {
    &&& s.len() >= 8
    &&& s[0] == '#'
    &&& s[1] == 'i'
    &&& s[2] == 'n'
    &&& s[3] == 'c'
    &&& s[4] == 'l'
    &&& s[5] == 'u'
    &&& s[6] == 'd'
    &&& s[7] == 'e'
    &&& !s.contains('<')
}

/// First index at or after `i` holding a whitespace character, or the end of
/// the sequence.
pub open spec fn skip_word(s: Seq<char>, i: int) -> int
    decreases s.len() - i,
    when 0 <= i <= s.len()
{
    if i >= s.len() || is_space(s[i]) {
        i
    } else {
        skip_word(s, i + 1)
    }
}

/// First index at or after `i` holding a non-whitespace character, or the
/// end of the sequence.
pub open spec fn skip_spaces(s: Seq<char>, i: int) -> int
    decreases s.len() - i,
    when 0 <= i <= s.len()
{
    if i >= s.len() || !is_space(s[i]) {
        i
    } else {
        skip_spaces(s, i + 1)
    }
}

/// Cleaning a raw token: quote characters are dropped and backslashes are
/// normalised to the forward-slash path separator the crate uses throughout.
pub open spec fn spec_clean(t: Seq<char>) -> Seq<char>
    decreases t.len(),
{
    if t.len() == 0 {
        Seq::empty()
    } else {
        let rest = spec_clean(t.drop_first());
        if t[0] == '"' {
            rest
        } else if t[0] == '\\' {
            seq!['/'] + rest
        } else {
            seq![t[0]] + rest
        }
    }
}

/// The raw header reference named by a directive line: the first
/// whitespace-delimited token after the directive keyword, with quotes
/// removed and path separators normalised. Empty when the line holds no such
/// token: such a line is malformed and contributes nothing.
pub open spec fn spec_target_of_line(s: Seq<char>) -> Seq<char> {
    let a = skip_spaces(s, skip_word(s, 0));
    let b = skip_word(s, a);
    spec_clean(s.subrange(a, b))
}

/// The ordered header references a file's lines contribute: one per
/// directive line whose cleaned target is non-empty, in file order.
pub open spec fn spec_targets(lines: Seq<Seq<char>>) -> Seq<Seq<char>>
    decreases lines.len(),
{
    if lines.len() == 0 {
        Seq::empty()
    } else {
        let rest = spec_targets(lines.drop_first());
        if spec_is_directive_line(lines[0]) && spec_target_of_line(lines[0]).len() > 0 {
            seq![spec_target_of_line(lines[0])] + rest
        } else {
            rest
        }
    }
}

/// A line that mentions `<` anywhere is never an inclusion directive, so an
/// angle-bracket system header can never contribute a graph edge.
pub proof fn lemma_angle_bracket_line_excluded(l: Seq<char>)
    requires
        l.contains('<'),
    ensures
        !spec_is_directive_line(l),
{
}

fn exec_is_space(c: char) -> (r: bool)
    ensures
        r == is_space(c),
{
    c == ' ' || c == '\t' || c == '\r'
}

fn exec_skip_word(s: &Vec<char>, start: usize) -> (r: usize)
    requires
        start <= s.len(),
    ensures
        r == skip_word(s@, start as int),
        start <= r <= s.len(),
{
    let mut i: usize = start;
    loop
        invariant
            start <= i <= s.len(),
            skip_word(s@, start as int) == skip_word(s@, i as int),
        decreases s.len() - i,
    {
        if i >= s.len() || exec_is_space(s[i]) {
            return i;
        }
        i = i + 1;
    }
}

fn exec_skip_spaces(s: &Vec<char>, start: usize) -> (r: usize)
    requires
        start <= s.len(),
    ensures
        r == skip_spaces(s@, start as int),
        start <= r <= s.len(),
{
    let mut i: usize = start;
    loop
        invariant
            start <= i <= s.len(),
            skip_spaces(s@, start as int) == skip_spaces(s@, i as int),
        decreases s.len() - i,
    {
        if i >= s.len() || !exec_is_space(s[i]) {
            return i;
        }
        i = i + 1;
    }
}

fn exec_clean(s: &Vec<char>, a: usize, b: usize) -> (r: Vec<char>)
    requires
        a <= b <= s.len(),
    ensures
        r@ == spec_clean(s@.subrange(a as int, b as int)),
{
    let mut out: Vec<char> = Vec::new();
    let mut i: usize = a;
    while i < b
        invariant
            a <= i <= b <= s.len(),
            spec_clean(s@.subrange(a as int, b as int)) == out@ + spec_clean(
                s@.subrange(i as int, b as int),
            ),
        decreases b - i,
    {
        let c = s[i];
        proof {
            assert(s@.subrange(i as int, b as int).drop_first() =~= s@.subrange(
                i + 1,
                b as int,
            ));
        }
        if c == '"' {
        } else if c == '\\' {
            out.push('/');
        } else {
            out.push(c);
        }
        i = i + 1;
    }
    proof {
        assert(s@.subrange(b as int, b as int) =~= Seq::<char>::empty());
        assert(out@ + Seq::<char>::empty() =~= out@);
    }
    out
}

/// Whether a line is an inclusion directive (quoted form only).
pub fn is_directive_line(line: &Vec<char>) -> (r: bool)
    ensures
        r == spec_is_directive_line(line@),
{
    if line.len() < 8 {
        return false;
    }
    if !(line[0] == '#' && line[1] == 'i' && line[2] == 'n' && line[3] == 'c' && line[4] == 'l'
        && line[5] == 'u' && line[6] == 'd' && line[7] == 'e') {
        return false;
    }
    let mut i: usize = 0;
    while i < line.len()
        invariant
            i <= line.len(),
            forall|j: int| 0 <= j < i ==> line@[j] != '<',
        decreases line.len() - i,
    {
        if line[i] == '<' {
            return false;
        }
        i = i + 1;
    }
    true
}

/// The cleaned header reference a directive line names; empty when the line
/// is malformed.
pub fn target_of_line(line: &Vec<char>) -> (r: Vec<char>)
    ensures
        r@ == spec_target_of_line(line@),
{
    let a = exec_skip_spaces(line, exec_skip_word(line, 0));
    let b = exec_skip_word(line, a);
    exec_clean(line, a, b)
}

/// All header references a file's lines contribute, in file order.
pub fn extract_targets(lines: &Vec<Vec<char>>) -> (r: Vec<Vec<char>>)
    ensures
        r.deep_view() == spec_targets(lines.deep_view()),
{
    let mut out: Vec<Vec<char>> = Vec::new();
    let mut i: usize = 0;
    proof {
        assert(lines.deep_view().subrange(0, lines@.len() as int) =~= lines.deep_view());
        assert(out.deep_view() + spec_targets(lines.deep_view()) =~= spec_targets(
            lines.deep_view(),
        ));
    }
    while i < lines.len()
        invariant
            i <= lines.len(),
            lines.deep_view().len() == lines@.len(),
            spec_targets(lines.deep_view()) == out.deep_view() + spec_targets(
                lines.deep_view().subrange(i as int, lines@.len() as int),
            ),
        decreases lines.len() - i,
    {
        let ghost prev_out = out.deep_view();
        let ghost tail = lines.deep_view().subrange(i as int, lines@.len() as int);
        proof {
            assert(tail.drop_first() =~= lines.deep_view().subrange(
                i + 1,
                lines@.len() as int,
            ));
            assert(tail[0] == lines.deep_view()[i as int]);
        }
        let line = &lines[i];
        proof {
            assert(line@ =~~= lines.deep_view()[i as int]);
        }
        if is_directive_line(line) {
            let t = target_of_line(line);
            if t.len() > 0 {
                out.push(t);
                proof {
                    assert(out.deep_view() =~~= prev_out.push(spec_target_of_line(
                        tail[0],
                    )));
                    assert(prev_out.push(spec_target_of_line(tail[0])) + spec_targets(
                        tail.drop_first(),
                    ) =~= prev_out + spec_targets(tail));
                }
            }
        }
        i = i + 1;
    }
    proof {
        assert(spec_targets(
            lines.deep_view().subrange(lines@.len() as int, lines@.len() as int),
        ) =~= Seq::<Seq<char>>::empty()) by {
            assert(lines.deep_view().subrange(lines@.len() as int, lines@.len() as int).len()
                == 0);
        }
        assert(out.deep_view() + Seq::<Seq<char>>::empty() =~= out.deep_view());
    }
    out
}

} // verus!
