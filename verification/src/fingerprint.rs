//! SQL fingerprints: the text of a statement with its literals replaced by
//! placeholders and its case folded, so that statements which differ only in
//! their literals share one key.
//!
//! A fingerprint is made in three passes. The first replaces string
//! literals, dollar-quoted literals and numeric literals by `$S` and `$N`.
//! The second collapses a list of placeholders after `IN` into `IN ($...)`.
//! The third folds ASCII capitals to lower case.
use vstd::prelude::*;

use crate::text::{
    char_is_blank, char_is_digit, char_is_ident, char_is_letter, char_lower, chars_of, is_blank,
    is_digit, is_ident_char, is_letter, lower, string_of,
};

verus! {

/// The placeholder for a string literal or a dollar-quoted literal: `$S`.
pub open spec fn string_mark() -> Seq<char> {
    seq!['$', 'S']
}

/// The placeholder for a numeric literal: `$N`.
pub open spec fn number_mark() -> Seq<char> {
    seq!['$', 'N']
}

/// What follows `IN` where a list of placeholders was collapsed: ` ($...)`.
pub open spec fn list_mark() -> Seq<char> {
    seq![' ', '(', '$', '.', '.', '.', ')']
}

// ---------------------------------------------------------------------------
// First pass: literals
// ---------------------------------------------------------------------------
/// The position just past the string literal whose body starts at `i`. A
/// doubled quote inside the body stands for a quote and does not end it; a
/// literal that is never closed runs to the end of the text.
pub open spec fn string_end(s: Seq<char>, i: int) -> int
    recommends
        0 <= i,
    decreases s.len() - i,
{
    if i >= s.len() {
        s.len() as int
    } else if s[i] != '\'' {
        string_end(s, i + 1)
    } else if i + 1 < s.len() && s[i + 1] == '\'' {
        string_end(s, i + 2)
    } else {
        i + 1
    }
}

/// The first position at or after `i` that holds no identifier character.
pub open spec fn ident_end(s: Seq<char>, i: int) -> int
    recommends
        0 <= i,
    decreases s.len() - i,
{
    if i >= s.len() {
        s.len() as int
    } else if is_ident_char(s[i]) {
        ident_end(s, i + 1)
    } else {
        i
    }
}

/// The first position at or after `i` that holds no digit.
pub open spec fn digits_end(s: Seq<char>, i: int) -> int
    recommends
        0 <= i,
    decreases s.len() - i,
{
    if i >= s.len() {
        s.len() as int
    } else if is_digit(s[i]) {
        digits_end(s, i + 1)
    } else {
        i
    }
}

/// The position just past the numeric literal that starts at `i`: its
/// digits, and at most one decimal point with the digits after it.
pub open spec fn number_end(s: Seq<char>, i: int) -> int {
    let e = digits_end(s, i);
    if e < s.len() && s[e] == '.' {
        digits_end(s, e + 1)
    } else {
        e
    }
}

/// The position of the `$` that closes the tag opened by the `$` at `i`, if
/// the characters between the two are identifier characters. For `$$` the
/// result is `i + 1`.
pub open spec fn dollar_tag_end(s: Seq<char>, i: int) -> Option<int> {
    let e = ident_end(s, i + 1);
    if e < s.len() && s[e] == '$' {
        Some(e)
    } else {
        None
    }
}

/// True if a dollar-quoted literal opens at `i`: a `$`, then a `$`, a letter
/// or an underscore, and a complete tag.
pub open spec fn opens_dollar_quote(s: Seq<char>, i: int) -> bool {
    &&& s[i] == '$'
    &&& i + 1 < s.len()
    &&& (s[i + 1] == '$' || is_letter(s[i + 1]) || s[i + 1] == '_')
    &&& dollar_tag_end(s, i) is Some
}

/// True if the `n` characters at `a` equal the `n` characters at `b`.
pub open spec fn same_text(s: Seq<char>, a: int, b: int, n: int) -> bool
    decreases n,
{
    n <= 0 || (s[a] == s[b] && same_text(s, a + 1, b + 1, n - 1))
}

/// The position at which scanning resumes after the body of a dollar-quoted
/// literal that is searched from `i` on: just past the first repetition of
/// the tag, which stands at `tag_at` and is `tag_len` long. Where the tag is
/// not repeated, the position is the first one at which it no longer fits.
pub open spec fn dollar_body_end(s: Seq<char>, tag_at: int, tag_len: int, i: int) -> int
    recommends
        0 <= i,
    decreases s.len() - i,
{
    if i + tag_len > s.len() || tag_len <= 0 {
        i
    } else if same_text(s, i, tag_at, tag_len) {
        i + tag_len
    } else {
        dollar_body_end(s, tag_at, tag_len, i + 1)
    }
}

/// One step of the first pass at position `i`: the text it puts out, and
/// the position at which the pass goes on.
pub open spec fn literal_step(s: Seq<char>, i: int) -> (Seq<char>, int) {
    if s[i] == '\'' {
        (string_mark(), string_end(s, i + 1))
    } else if opens_dollar_quote(s, i) {
        let t = dollar_tag_end(s, i)->0;
        (string_mark(), dollar_body_end(s, i, t - i + 1, t + 1))
    } else if s[i] == '$' && i + 1 < s.len() && is_digit(s[i + 1]) {
        (s.subrange(i, digits_end(s, i + 1)), digits_end(s, i + 1))
    } else if is_digit(s[i]) && !(i > 0 && is_ident_char(s[i - 1])) {
        (number_mark(), number_end(s, i))
    } else {
        (seq![s[i]], i + 1)
    }
}

/// The output of the first pass from position `i` on.
pub open spec fn literals_replaced_from(s: Seq<char>, i: int) -> Seq<char>
    decreases s.len() - i,
{
    if i < 0 || i >= s.len() {
        Seq::empty()
    } else {
        proof {
            lemma_literal_step_bounds(s, i);
        }
        literal_step(s, i).0 + literals_replaced_from(s, literal_step(s, i).1)
    }
}

/// `s` with every string literal and dollar-quoted literal replaced by `$S`
/// and every numeric literal by `$N`. A digit that follows an identifier
/// character belongs to a name and stays; so does a parameter placeholder, a
/// `$` with digits after it.
pub open spec fn literals_replaced(s: Seq<char>) -> Seq<char> {
    literals_replaced_from(s, 0)
}

/// A string literal ends at or after the position at which its body starts,
/// and within the text.
pub proof fn lemma_string_end_bounds(s: Seq<char>, i: int)
    requires
        0 <= i <= s.len(),
    ensures
        i <= string_end(s, i) <= s.len(),
    decreases s.len() - i,
{
    if i < s.len() {
        if s[i] != '\'' {
            lemma_string_end_bounds(s, i + 1);
        } else if i + 1 < s.len() && s[i + 1] == '\'' {
            lemma_string_end_bounds(s, i + 2);
        }
    }
}

/// A run of identifier characters ends at or after the position at which it
/// starts, and within the text.
pub proof fn lemma_ident_end_bounds(s: Seq<char>, i: int)
    requires
        0 <= i <= s.len(),
    ensures
        i <= ident_end(s, i) <= s.len(),
    decreases s.len() - i,
{
    if i < s.len() && is_ident_char(s[i]) {
        lemma_ident_end_bounds(s, i + 1);
    }
}

/// The search for a closing tag ends at or after the position at which it
/// starts, and within the text.
pub proof fn lemma_dollar_body_end_bounds(s: Seq<char>, tag_at: int, tag_len: int, i: int)
    requires
        0 <= i <= s.len(),
    ensures
        i <= dollar_body_end(s, tag_at, tag_len, i) <= s.len(),
    decreases s.len() - i,
{
    if !(i + tag_len > s.len() || tag_len <= 0) && !same_text(s, i, tag_at, tag_len) {
        lemma_dollar_body_end_bounds(s, tag_at, tag_len, i + 1);
    }
}

/// Every step of the first pass moves forward and stays within the text.
pub proof fn lemma_literal_step_bounds(s: Seq<char>, i: int)
    requires
        0 <= i < s.len(),
    ensures
        i < literal_step(s, i).1 <= s.len(),
{
    lemma_string_end_bounds(s, i + 1);
    lemma_ident_end_bounds(s, i + 1);
    if opens_dollar_quote(s, i) {
        let t = dollar_tag_end(s, i)->0;
        lemma_dollar_body_end_bounds(s, i, t - i + 1, t + 1);
    }
    if i + 1 < s.len() {
        lemma_digits_end_stops(s, i + 1);
    }
    lemma_digits_end_stops(s, i);
    let e = digits_end(s, i);
    if e < s.len() {
        lemma_digits_end_stops(s, e + 1);
    }
}

/// Finds the end of the string literal whose body starts at `from`.
fn find_string_end(s: &[char], from: usize) -> (end: usize)
    requires
        from <= s.len(),
    ensures
        end == string_end(s@, from as int),
        from <= end <= s.len(),
{
    let mut i: usize = from;
    loop
        invariant
            from <= i <= s.len(),
            string_end(s@, i as int) == string_end(s@, from as int),
        decreases s.len() - i,
    {
        if i >= s.len() {
            return i;
        }
        if s[i] != '\'' {
            i = i + 1;
        } else if i + 1 < s.len() && s[i + 1] == '\'' {
            i = i + 2;
        } else {
            return i + 1;
        }
    }
}

/// Finds the end of the run of identifier characters that starts at `from`.
fn find_ident_end(s: &[char], from: usize) -> (end: usize)
    requires
        from <= s.len(),
    ensures
        end == ident_end(s@, from as int),
        from <= end <= s.len(),
{
    let mut i: usize = from;
    while i < s.len() && char_is_ident(s[i])
        invariant
            from <= i <= s.len(),
            ident_end(s@, i as int) == ident_end(s@, from as int),
        decreases s.len() - i,
    {
        i = i + 1;
    }
    i
}

/// Finds the end of the run of digits that starts at `from`.
fn find_digits_end(s: &[char], from: usize) -> (end: usize)
    requires
        from <= s.len(),
    ensures
        end == digits_end(s@, from as int),
        from <= end <= s.len(),
{
    let mut i: usize = from;
    while i < s.len() && char_is_digit(s[i])
        invariant
            from <= i <= s.len(),
            digits_end(s@, i as int) == digits_end(s@, from as int),
        decreases s.len() - i,
    {
        i = i + 1;
    }
    i
}

/// Finds the end of the numeric literal that starts at `from`.
fn find_number_end(s: &[char], from: usize) -> (end: usize)
    requires
        from <= s.len(),
    ensures
        end == number_end(s@, from as int),
        from <= end <= s.len(),
{
    let e = find_digits_end(s, from);
    if e < s.len() && s[e] == '.' {
        find_digits_end(s, e + 1)
    } else {
        e
    }
}

/// Finds the `$` that closes the tag opened by the `$` at `start`.
fn find_dollar_tag_end(s: &[char], start: usize) -> (res: Option<usize>)
    requires
        start < s.len(),
    ensures
        match res {
            Some(e) => dollar_tag_end(s@, start as int) == Some(e as int) && start < e < s.len(),
            None => dollar_tag_end(s@, start as int) is None,
        },
{
    let e = find_ident_end(s, start + 1);
    if e < s.len() && s[e] == '$' {
        Some(e)
    } else {
        None
    }
}

/// Compares the `n` characters at `a` with the `n` characters at `b`.
fn text_matches(s: &[char], a: usize, b: usize, n: usize) -> (res: bool)
    requires
        a + n <= s.len(),
        b + n <= s.len(),
    ensures
        res == same_text(s@, a as int, b as int, n as int),
{
    let mut k: usize = 0;
    while k < n
        invariant
            k <= n,
            a + n <= s.len(),
            b + n <= s.len(),
            same_text(s@, a + k, b + k, n - k) == same_text(s@, a as int, b as int, n as int),
        decreases n - k,
    {
        if s[a + k] != s[b + k] {
            return false;
        }
        k = k + 1;
    }
    true
}

/// Finds where scanning resumes after the body of a dollar-quoted literal.
fn find_dollar_body_end(s: &[char], tag_at: usize, tag_len: usize, from: usize) -> (end: usize)
    requires
        from <= s.len(),
        tag_at + tag_len <= s.len(),
        tag_len > 0,
    ensures
        end == dollar_body_end(s@, tag_at as int, tag_len as int, from as int),
        from <= end <= s.len(),
{
    let mut i: usize = from;
    while tag_len <= s.len() - i
        invariant
            from <= i <= s.len(),
            tag_at + tag_len <= s.len(),
            tag_len > 0,
            dollar_body_end(s@, tag_at as int, tag_len as int, i as int) == dollar_body_end(
                s@,
                tag_at as int,
                tag_len as int,
                from as int,
            ),
        decreases s.len() - i,
    {
        if text_matches(s, i, tag_at, tag_len) {
            return i + tag_len;
        }
        i = i + 1;
    }
    i
}

/// Appends the characters of `text` to `out`.
fn push_text(out: &mut Vec<char>, text: &str)
    ensures
        final(out)@ == old(out)@ + text@,
{
    let chars = chars_of(text);
    let mut k: usize = 0;
    while k < chars.len()
        invariant
            k <= chars.len(),
            chars@ == text@,
            out@ == old(out)@ + chars@.take(k as int),
        decreases chars.len() - k,
    {
        out.push(chars[k]);
        proof {
            assert(chars@.take(k as int).push(chars@[k as int]) =~= chars@.take(k + 1));
            assert(out@ =~= old(out)@ + chars@.take(k + 1));
        }
        k = k + 1;
    }
    proof {
        assert(chars@.take(chars.len() as int) =~= chars@);
    }
}

/// Appends the characters `s[from..to]` to `out`.
fn push_range(out: &mut Vec<char>, s: &[char], from: usize, to: usize)
    requires
        from <= to <= s.len(),
    ensures
        final(out)@ == old(out)@ + s@.subrange(from as int, to as int),
{
    let mut k: usize = from;
    while k < to
        invariant
            from <= k <= to <= s.len(),
            out@ == old(out)@ + s@.subrange(from as int, k as int),
        decreases to - k,
    {
        out.push(s[k]);
        proof {
            assert(s@.subrange(from as int, k as int).push(s@[k as int]) =~= s@.subrange(
                from as int,
                k + 1,
            ));
            assert(out@ =~= old(out)@ + s@.subrange(from as int, k + 1));
        }
        k = k + 1;
    }
}

/// Runs the first pass: replaces the literals of `s` by placeholders.
fn replace_literals(s: &[char]) -> (out: Vec<char>)
    ensures
        out@ == literals_replaced(s@),
{
    let mut out: Vec<char> = Vec::new();
    let mut i: usize = 0;
    proof {
        reveal_strlit("$S");
        reveal_strlit("$N");
        assert("$S"@ =~= string_mark());
        assert("$N"@ =~= number_mark());
    }
    while i < s.len()
        invariant
            i <= s.len(),
            "$S"@ == string_mark(),
            "$N"@ == number_mark(),
            out@ + literals_replaced_from(s@, i as int) == literals_replaced(s@),
        decreases s.len() - i,
    {
        let ghost before = out@;
        let ghost step = literal_step(s@, i as int);
        proof {
            lemma_literal_step_bounds(s@, i as int);
        }
        let c = s[i];
        let mut next: usize = i + 1;
        let mut done = false;
        if c == '\'' {
            push_text(&mut out, "$S");
            next = find_string_end(s, i + 1);
            done = true;
        } else if c == '$' && i + 1 < s.len() {
            let d = s[i + 1];
            if d == '$' || char_is_letter(d) || d == '_' {
                match find_dollar_tag_end(s, i) {
                    Some(t) => {
                        push_text(&mut out, "$S");
                        next = find_dollar_body_end(s, i, t - i + 1, t + 1);
                        done = true;
                    },
                    None => {},
                }
            } else if char_is_digit(d) {
                next = find_digits_end(s, i + 1);
                push_range(&mut out, s, i, next);
                done = true;
            }
        } else if char_is_digit(c) && !(i > 0 && char_is_ident(s[i - 1])) {
            push_text(&mut out, "$N");
            next = find_number_end(s, i);
            done = true;
        }
        if !done {
            out.push(c);
            proof {
                assert(out@ =~= before + seq![c]);
            }
        }
        proof {
            assert(out@ == before + step.0);
            assert(next == step.1);
            assert((before + step.0) + literals_replaced_from(s@, step.1) =~= before + (step.0
                + literals_replaced_from(s@, step.1)));
        }
        i = next;
    }
    proof {
        assert(out@ + literals_replaced_from(s@, i as int) =~= out@);
    }
    out
}

// ---------------------------------------------------------------------------
// Second pass: lists after IN
// ---------------------------------------------------------------------------
/// The first position at or after `i` that holds no whitespace.
pub open spec fn blanks_end(t: Seq<char>, i: int) -> int
    recommends
        0 <= i,
    decreases t.len() - i,
{
    if i >= t.len() {
        t.len() as int
    } else if is_blank(t[i]) {
        blanks_end(t, i + 1)
    } else {
        i
    }
}

/// The position of the `)` that closes a list of placeholders, read from
/// `j` on. The list holds `$N` and `$S`, commas and spaces, and nothing
/// else; `seen` tells whether a placeholder was read before `j`, and a list
/// without any placeholder is none.
pub open spec fn list_end(t: Seq<char>, j: int, seen: bool) -> Option<int>
    recommends
        0 <= j,
    decreases t.len() - j,
{
    if j >= t.len() {
        None
    } else if t[j] == ')' {
        if seen {
            Some(j)
        } else {
            None
        }
    } else if t[j] == '$' {
        if j + 1 < t.len() && (t[j + 1] == 'N' || t[j + 1] == 'S') {
            list_end(t, j + 2, true)
        } else {
            None
        }
    } else if t[j] == ',' || t[j] == ' ' {
        list_end(t, j + 1, seen)
    } else {
        None
    }
}

/// True if the keyword `IN`, in either case, stands at `i`, is not the end
/// of the text, and does not continue an identifier.
pub open spec fn in_keyword_at(t: Seq<char>, i: int) -> bool {
    &&& i + 2 < t.len()
    &&& (t[i] == 'I' || t[i] == 'i')
    &&& (t[i + 1] == 'N' || t[i + 1] == 'n')
    &&& (i == 0 || !is_ident_char(t[i - 1]))
}

/// The position of the `)` that closes the placeholder list of the `IN` at
/// `i`, if such a list stands there: the keyword, optional whitespace, `(`,
/// then the list.
pub open spec fn in_list_end(t: Seq<char>, i: int) -> Option<int> {
    let j = blanks_end(t, i + 2);
    if in_keyword_at(t, i) && j < t.len() && t[j] == '(' {
        list_end(t, j + 1, false)
    } else {
        None
    }
}

/// One step of the second pass at position `i`: the text it puts out, and
/// the position at which the pass goes on.
pub open spec fn collapse_step(t: Seq<char>, i: int) -> (Seq<char>, int) {
    match in_list_end(t, i) {
        Some(e) => (seq![t[i], t[i + 1]] + list_mark(), e + 1),
        None => (seq![t[i]], i + 1),
    }
}

/// The output of the second pass from position `i` on.
pub open spec fn in_lists_collapsed_from(t: Seq<char>, i: int) -> Seq<char>
    decreases t.len() - i,
{
    if i < 0 || i >= t.len() {
        Seq::empty()
    } else {
        proof {
            lemma_collapse_step_bounds(t, i);
        }
        collapse_step(t, i).0 + in_lists_collapsed_from(t, collapse_step(t, i).1)
    }
}

/// `t` with every `IN (…)` whose parentheses hold only placeholders,
/// commas and spaces replaced by `IN ($...)`. The keyword keeps its case.
pub open spec fn in_lists_collapsed(t: Seq<char>) -> Seq<char> {
    in_lists_collapsed_from(t, 0)
}

/// A run of whitespace ends at or after the position at which it starts,
/// and within the text.
pub proof fn lemma_blanks_end_bounds(t: Seq<char>, i: int)
    requires
        0 <= i <= t.len(),
    ensures
        i <= blanks_end(t, i) <= t.len(),
    decreases t.len() - i,
{
    if i < t.len() && is_blank(t[i]) {
        lemma_blanks_end_bounds(t, i + 1);
    }
}

/// Every step of the second pass moves forward and stays within the text.
pub proof fn lemma_collapse_step_bounds(t: Seq<char>, i: int)
    requires
        0 <= i < t.len(),
    ensures
        i < collapse_step(t, i).1 <= t.len(),
{
    if in_keyword_at(t, i) {
        lemma_blanks_end_bounds(t, i + 2);
        let j = blanks_end(t, i + 2);
        if j < t.len() {
            lemma_list_end_closes(t, j + 1, false);
        }
    }
}

/// Finds the end of the run of whitespace that starts at `from`.
fn find_blanks_end(t: &[char], from: usize) -> (end: usize)
    requires
        from <= t.len(),
    ensures
        end == blanks_end(t@, from as int),
        from <= end <= t.len(),
{
    let mut i: usize = from;
    while i < t.len() && char_is_blank(t[i])
        invariant
            from <= i <= t.len(),
            blanks_end(t@, i as int) == blanks_end(t@, from as int),
        decreases t.len() - i,
    {
        i = i + 1;
    }
    i
}

/// Reads a list of placeholders from `from` on and finds the `)` that
/// closes it.
fn find_list_end(t: &[char], from: usize) -> (res: Option<usize>)
    requires
        from <= t.len(),
    ensures
        match res {
            Some(e) => list_end(t@, from as int, false) == Some(e as int) && from <= e < t.len(),
            None => list_end(t@, from as int, false) is None,
        },
{
    let mut j: usize = from;
    let mut seen = false;
    loop
        invariant
            from <= j <= t.len(),
            list_end(t@, j as int, seen) == list_end(t@, from as int, false),
        decreases t.len() - j,
    {
        if j >= t.len() {
            return None;
        }
        let c = t[j];
        if c == ')' {
            if seen {
                return Some(j);
            } else {
                return None;
            }
        } else if c == '$' {
            if j + 1 < t.len() && (t[j + 1] == 'N' || t[j + 1] == 'S') {
                seen = true;
                j = j + 2;
            } else {
                return None;
            }
        } else if c == ',' || c == ' ' {
            j = j + 1;
        } else {
            return None;
        }
    }
}

/// Looks for an `IN` with a placeholder list at `i`.
fn find_in_list_end(t: &[char], i: usize) -> (res: Option<usize>)
    requires
        i < t.len(),
    ensures
        match res {
            Some(e) => in_list_end(t@, i as int) == Some(e as int) && i + 2 < e < t.len(),
            None => in_list_end(t@, i as int) is None,
        },
{
    if t.len() - i <= 2 {
        return None;
    }
    if !(t[i] == 'I' || t[i] == 'i') || !(t[i + 1] == 'N' || t[i + 1] == 'n') {
        return None;
    }
    if i > 0 && char_is_ident(t[i - 1]) {
        return None;
    }
    let j = find_blanks_end(t, i + 2);
    if j < t.len() && t[j] == '(' {
        find_list_end(t, j + 1)
    } else {
        None
    }
}

/// Runs the second pass: collapses the placeholder lists after `IN`.
fn normalize_in_lists(t: &[char]) -> (out: Vec<char>)
    ensures
        out@ == in_lists_collapsed(t@),
{
    let mut out: Vec<char> = Vec::new();
    let mut i: usize = 0;
    proof {
        reveal_strlit(" ($...)");
        assert(" ($...)"@ =~= list_mark());
    }
    while i < t.len()
        invariant
            i <= t.len(),
            " ($...)"@ == list_mark(),
            out@ + in_lists_collapsed_from(t@, i as int) == in_lists_collapsed(t@),
        decreases t.len() - i,
    {
        let ghost before = out@;
        let ghost step = collapse_step(t@, i as int);
        let next: usize;
        match find_in_list_end(t, i) {
            Some(e) => {
                out.push(t[i]);
                out.push(t[i + 1]);
                push_text(&mut out, " ($...)");
                next = e + 1;
                proof {
                    assert(out@ =~= before + (seq![t@[i as int], t@[i + 1]] + list_mark()));
                }
            },
            None => {
                out.push(t[i]);
                next = i + 1;
                proof {
                    assert(out@ =~= before + seq![t@[i as int]]);
                }
            },
        }
        proof {
            assert(out@ == before + step.0);
            assert(next == step.1);
            assert((before + step.0) + in_lists_collapsed_from(t@, step.1) =~= before + (step.0
                + in_lists_collapsed_from(t@, step.1)));
        }
        i = next;
    }
    proof {
        assert(out@ + in_lists_collapsed_from(t@, i as int) =~= out@);
    }
    out
}

// ---------------------------------------------------------------------------
// Third pass, and the whole
// ---------------------------------------------------------------------------
/// `t` with every ASCII capital letter folded to lower case.
pub open spec fn lowercased(t: Seq<char>) -> Seq<char> {
    Seq::new(t.len(), |k: int| lower(t[k]))
}

/// The fingerprint of the SQL text `sql`: literals replaced, placeholder
/// lists after `IN` collapsed, and the result in lower case.
pub open spec fn fingerprint_text(sql: Seq<char>) -> Seq<char> {
    lowercased(in_lists_collapsed(literals_replaced(sql)))
}

/// Folds the ASCII capitals of `t` to lower case.
fn to_lowercase(t: &[char]) -> (out: Vec<char>)
    ensures
        out@ == lowercased(t@),
{
    let mut out: Vec<char> = Vec::new();
    let mut k: usize = 0;
    while k < t.len()
        invariant
            k <= t.len(),
            out@.len() == k,
            forall|j: int| 0 <= j < k ==> out@[j] == lower(t@[j]),
        decreases t.len() - k,
    {
        out.push(char_lower(t[k]));
        k = k + 1;
    }
    proof {
        assert(out@ =~= lowercased(t@));
    }
    out
}

/// Normalises SQL text into its fingerprint.
///
/// String literals and dollar-quoted literals become `$s`, numeric literals
/// become `$n`, a list of literals after `IN` becomes `in ($...)`, and the
/// rest is folded to lower case. Every text has a fingerprint: no input is
/// rejected.
pub fn fingerprint(sql: &str) -> (res: String)
    ensures
        res@ == fingerprint_text(sql@),
{
    let chars = chars_of(sql);
    let replaced = replace_literals(chars.as_slice());
    let collapsed = normalize_in_lists(replaced.as_slice());
    let folded = to_lowercase(collapsed.as_slice());
    string_of(folded.as_slice())
}

// ---------------------------------------------------------------------------
// Text without literals
// ---------------------------------------------------------------------------
/// True if no literal starts at position `i` of `s`: no quote stands there,
/// no dollar-quoted literal opens there, and a digit there follows an
/// identifier character or the `$` of a parameter placeholder.
pub open spec fn quiet_at(s: Seq<char>, i: int) -> bool {
    &&& s[i] != '\''
    &&& !opens_dollar_quote(s, i)
    &&& is_digit(s[i]) ==> i > 0 && (is_ident_char(s[i - 1]) || s[i - 1] == '$')
}

/// True if `s` holds no literal.
pub open spec fn no_literals(s: Seq<char>) -> bool {
    forall|i: int| 0 <= i < s.len() ==> #[trigger] quiet_at(s, i)
}

/// True if `s` holds no ASCII capital letter.
pub open spec fn no_capitals(s: Seq<char>) -> bool {
    forall|i: int| 0 <= i < s.len() ==> !('A' <= #[trigger] s[i] <= 'Z')
}

/// True if the run of identifier characters that starts at `j` is followed
/// by a `$`.
pub open spec fn tag_closes(s: Seq<char>, j: int) -> bool {
    ident_end(s, j) < s.len() && s[ident_end(s, j)] == '$'
}

/// A run of digits ends at a character that is no digit, or at the end.
pub proof fn lemma_digits_end_stops(s: Seq<char>, i: int)
    requires
        0 <= i <= s.len(),
    ensures
        i <= digits_end(s, i) <= s.len(),
        digits_end(s, i) < s.len() ==> !is_digit(s[digits_end(s, i)]),
        forall|k: int| i <= k < digits_end(s, i) ==> is_digit(#[trigger] s[k]),
    decreases s.len() - i,
{
    if i < s.len() && is_digit(s[i]) {
        lemma_digits_end_stops(s, i + 1);
    }
}

/// The first pass changes nothing in text without literals. The claim is
/// made from any position on that is not the digit of a placeholder.
pub proof fn lemma_replaced_unchanged_from(s: Seq<char>, i: int)
    requires
        no_literals(s),
        0 <= i <= s.len(),
        0 < i < s.len() && s[i - 1] == '$' ==> !is_digit(s[i]),
    ensures
        literals_replaced_from(s, i) == s.skip(i),
    decreases s.len() - i,
{
    if i < s.len() {
        assert(quiet_at(s, i));
        lemma_literal_step_bounds(s, i);
        let step = literal_step(s, i);
        if s[i] == '$' && i + 1 < s.len() && is_digit(s[i + 1]) {
            lemma_digits_end_stops(s, i + 1);
        }
        lemma_replaced_unchanged_from(s, step.1);
        assert(step.0 =~= s.subrange(i, step.1));
        assert(s.skip(i) =~= s.subrange(i, step.1) + s.skip(step.1));
    } else {
        assert(s.skip(i) =~= Seq::<char>::empty());
    }
}

/// A list that is read without a placeholder seen, in text that holds
/// neither `N` nor `S`, never closes.
pub proof fn lemma_list_needs_placeholder(t: Seq<char>, j: int)
    requires
        0 <= j,
        forall|k: int| 0 <= k < t.len() ==> #[trigger] t[k] != 'N' && t[k] != 'S',
    ensures
        list_end(t, j, false) is None,
    decreases t.len() - j,
{
    if j < t.len() && (t[j] == ',' || t[j] == ' ') {
        lemma_list_needs_placeholder(t, j + 1);
    }
}

/// The second pass changes nothing in text that holds neither `N` nor `S`.
pub proof fn lemma_collapsed_unchanged_from(t: Seq<char>, i: int)
    requires
        0 <= i <= t.len(),
        forall|k: int| 0 <= k < t.len() ==> #[trigger] t[k] != 'N' && t[k] != 'S',
    ensures
        in_lists_collapsed_from(t, i) == t.skip(i),
    decreases t.len() - i,
{
    if i < t.len() {
        if in_keyword_at(t, i) {
            lemma_blanks_end_bounds(t, i + 2);
            lemma_list_needs_placeholder(t, blanks_end(t, i + 2) + 1);
        }
        assert(in_list_end(t, i) is None);
        lemma_collapsed_unchanged_from(t, i + 1);
        assert(t.skip(i) =~= seq![t[i]] + t.skip(i + 1));
    } else {
        assert(t.skip(i) =~= Seq::<char>::empty());
    }
}

/// Folding to lower case moves no end of a run of identifier characters.
pub proof fn lemma_lowercased_ident_end(s: Seq<char>, j: int)
    requires
        0 <= j,
    ensures
        ident_end(lowercased(s), j) == ident_end(s, j),
    decreases s.len() - j,
{
    if j < s.len() {
        if is_ident_char(s[j]) {
            lemma_lowercased_ident_end(s, j + 1);
        }
    }
}

/// Folding to lower case makes no literal.
pub proof fn lemma_lowercased_no_literals(s: Seq<char>)
    requires
        no_literals(s),
    ensures
        no_literals(lowercased(s)),
{
    let u = lowercased(s);
    assert forall|i: int| 0 <= i < u.len() implies #[trigger] quiet_at(u, i) by {
        assert(quiet_at(s, i));
        lemma_lowercased_ident_end(s, i + 1);
        let e = ident_end(s, i + 1);
        lemma_ident_end_bounds(s, i + 1);
        if e < s.len() {
            assert(u[e] == lower(s[e]));
        }
    }
}

/// The end of a run of identifier characters in the second of two joined
/// texts is where it is in that text alone.
pub proof fn lemma_ident_end_shift(a: Seq<char>, b: Seq<char>, q: int)
    requires
        0 <= q,
    ensures
        ident_end(a + b, a.len() + q) == a.len() + ident_end(b, q),
    decreases b.len() - q,
{
    if q < b.len() {
        assert((a + b)[a.len() + q] == b[q]);
        if is_ident_char(b[q]) {
            lemma_ident_end_shift(a, b, q + 1);
        }
    }
}

/// A dollar-quoted literal opens in the second of two joined texts where it
/// opens in that text alone.
pub proof fn lemma_opens_dollar_quote_shift(a: Seq<char>, b: Seq<char>, q: int)
    requires
        0 <= q < b.len(),
    ensures
        opens_dollar_quote(a + b, a.len() + q) == opens_dollar_quote(b, q),
        tag_closes(a + b, a.len() + q) == tag_closes(b, q),
{
    lemma_ident_end_shift(a, b, q);
    lemma_ident_end_shift(a, b, q + 1);
    lemma_ident_end_bounds(b, q);
    lemma_ident_end_bounds(b, q + 1);
    assert((a + b)[a.len() + q] == b[q]);
    if q + 1 < b.len() {
        assert((a + b)[a.len() + q + 1] == b[q + 1]);
    }
    let e = ident_end(b, q + 1);
    if e < b.len() {
        assert((a + b)[a.len() + e] == b[e]);
    }
    let f = ident_end(b, q);
    if f < b.len() {
        assert((a + b)[a.len() + f] == b[f]);
    }
}

/// A list of placeholders is closed by a `)`.
pub proof fn lemma_list_end_closes(t: Seq<char>, j: int, seen: bool)
    requires
        0 <= j <= t.len(),
    ensures
        list_end(t, j, seen) matches Some(e) ==> j <= e < t.len() && t[e] == ')',
    decreases t.len() - j,
{
    if j < t.len() {
        if t[j] == ')' {
        } else if t[j] == '$' {
            if j + 1 < t.len() && (t[j + 1] == 'N' || t[j + 1] == 'S') {
                lemma_list_end_closes(t, j + 2, true);
            }
        } else if t[j] == ',' || t[j] == ' ' {
            lemma_list_end_closes(t, j + 1, seen);
        }
    }
}

/// What holds of the output of the second pass from position `i` on, where
/// the input holds no literal: it begins as the input does, it holds no
/// quote, its digits follow identifier characters or `$`, no dollar-quoted
/// literal opens in it, and a tag closes at its front only where one does
/// in the input.
pub open spec fn collapsed_quiet(s: Seq<char>, i: int) -> bool {
    let t = in_lists_collapsed_from(s, i);
    &&& i < s.len() ==> t.len() > 0 && t[0] == s[i]
    &&& i >= s.len() ==> t.len() == 0
    &&& forall|p: int| 0 <= p < t.len() ==> #[trigger] t[p] != '\''
    &&& forall|p: int|
        1 <= p < t.len() && is_digit(#[trigger] t[p]) ==> is_ident_char(t[p - 1]) || t[p - 1]
            == '$'
    &&& forall|p: int| 0 <= p < t.len() ==> !#[trigger] opens_dollar_quote(t, p)
    &&& tag_closes(t, 0) ==> tag_closes(s, i)
}

/// The second pass makes no literal: its output from any position on is as
/// [`collapsed_quiet`] says.
pub proof fn lemma_collapsed_quiet(s: Seq<char>, i: int)
    requires
        no_literals(s),
        0 <= i <= s.len(),
    ensures
        collapsed_quiet(s, i),
    decreases s.len() - i,
{
    let t = in_lists_collapsed_from(s, i);
    if i < s.len() {
        assert(quiet_at(s, i));
        lemma_collapse_step_bounds(s, i);
        let step = collapse_step(s, i);
        let piece = step.0;
        let next = step.1;
        let rest = in_lists_collapsed_from(s, next);
        lemma_collapsed_quiet(s, next);
        assert(t == piece + rest);
        assert forall|p: int| piece.len() <= p < t.len() implies !#[trigger] opens_dollar_quote(
            t,
            p,
        ) by {
            lemma_opens_dollar_quote_shift(piece, rest, p - piece.len());
            assert(!opens_dollar_quote(rest, p - piece.len()));
        }
        assert forall|p: int| piece.len() < p < t.len() && is_digit(#[trigger] t[p]) implies (
        is_ident_char(t[p - 1]) || t[p - 1] == '$') by {
            assert(t[p] == rest[p - piece.len()]);
            assert(t[p - 1] == rest[p - piece.len() - 1]);
        }
        assert forall|p: int| piece.len() <= p < t.len() implies #[trigger] t[p] != '\'' by {
            assert(t[p] == rest[p - piece.len()]);
        }
        if next < s.len() {
            assert(quiet_at(s, next));
            assert(t[piece.len() as int] == rest[0]);
        }
        if rest.len() > 0 {
            lemma_opens_dollar_quote_shift(piece, rest, 0);
        }
        match in_list_end(s, i) {
            Some(e) => {
                lemma_blanks_end_bounds(s, i + 2);
                lemma_list_end_closes(s, blanks_end(s, i + 2) + 1, false);
                assert(piece =~= seq![s[i], s[i + 1], ' ', '(', '$', '.', '.', '.', ')']);
                assert(piece.len() == 9);
                assert(t[0] == s[i] && t[1] == s[i + 1] && t[2] == ' ' && t[3] == '(' && t[4]
                    == '$' && t[5] == '.' && t[6] == '.' && t[7] == '.' && t[8] == ')');
                assert(s[next - 1] == ')');
                assert(ident_end(t, 2) == 2);
                assert(ident_end(t, 1) == 2);
                assert(ident_end(t, 0) == 2);
                assert(ident_end(t, 5) == 5);
                assert forall|p: int| 0 <= p < 9 implies !#[trigger] opens_dollar_quote(t, p) by {}
                assert forall|p: int| 0 <= p < 9 implies #[trigger] t[p] != '\'' by {}
                assert forall|p: int| 1 <= p <= 9 && p < t.len() && is_digit(
                    #[trigger] t[p],
                ) implies (is_ident_char(t[p - 1]) || t[p - 1] == '$') by {}
            },
            None => {
                assert(piece =~= seq![s[i]]);
                assert(t[0] == s[i]);
                lemma_ident_end_shift(piece, rest, 0);
                lemma_ident_end_bounds(rest, 0);
                lemma_ident_end_bounds(s, i + 1);
                if s[i] == '$' && opens_dollar_quote(t, 0) {
                    assert(t[1] == rest[0]);
                    assert(tag_closes(rest, 0));
                    assert(tag_closes(s, i + 1));
                    assert(opens_dollar_quote(s, i));
                }
                if tag_closes(t, 0) {
                    if is_ident_char(s[i]) {
                        assert(ident_end(t, 0) == ident_end(t, 1));
                        assert(tag_closes(rest, 0));
                        assert(tag_closes(s, i + 1));
                    }
                }
            },
        }
    }
}

/// The second pass makes no literal in text that holds none.
pub proof fn lemma_collapsed_no_literals(s: Seq<char>)
    requires
        no_literals(s),
    ensures
        no_literals(in_lists_collapsed(s)),
{
    lemma_collapsed_quiet(s, 0);
    let t = in_lists_collapsed(s);
    assert forall|p: int| 0 <= p < t.len() implies #[trigger] quiet_at(t, p) by {
        assert(t[p] != '\'');
        assert(!opens_dollar_quote(t, p));
        if p == 0 {
            assert(quiet_at(s, 0));
        }
    }
}

/// A fingerprint is in lower case, and folding it again changes nothing.
pub proof fn lemma_lowercased_twice(t: Seq<char>)
    ensures
        no_capitals(lowercased(t)),
        lowercased(lowercased(t)) == lowercased(t),
{
    assert(lowercased(lowercased(t)) =~= lowercased(t));
}

/// The fingerprint of text without literals is its own fingerprint: taking
/// the fingerprint a second time changes nothing.
pub proof fn lemma_fingerprint_idempotent(s: Seq<char>)
    requires
        no_literals(s),
    ensures
        fingerprint_text(fingerprint_text(s)) == fingerprint_text(s),
{
    lemma_replaced_unchanged_from(s, 0);
    assert(s.skip(0) =~= s);
    let t = in_lists_collapsed(s);
    lemma_collapsed_no_literals(s);
    let u = lowercased(t);
    assert(u == fingerprint_text(s));
    lemma_lowercased_no_literals(t);
    lemma_lowercased_twice(t);
    lemma_replaced_unchanged_from(u, 0);
    assert(u.skip(0) =~= u);
    lemma_collapsed_unchanged_from(u, 0);
}

/// A fingerprint holds no ASCII capital letter, and the fingerprint of the
/// empty text is empty.
pub proof fn lemma_fingerprint_lowercase(s: Seq<char>)
    ensures
        no_capitals(fingerprint_text(s)),
        s.len() == 0 ==> fingerprint_text(s) == Seq::<char>::empty(),
{
    lemma_lowercased_twice(in_lists_collapsed(literals_replaced(s)));
    if s.len() == 0 {
        assert(fingerprint_text(s) =~= Seq::<char>::empty());
    }
}

} // verus!
