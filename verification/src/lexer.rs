//! Character-level tokenizer: a single forward pass over comment-stripped
//! source text, driven by a three-state machine (plain text, inside a numeric
//! literal, inside a string literal).

use vstd::prelude::*;

verus! {

// ---------------------------------------------------------------------------
// Characters
// ---------------------------------------------------------------------------

/// The Unicode white-space characters, the set the scanner treats as blank.
pub open spec fn is_space_char(c: char) -> bool {
    let u = c as u32;
    (9 <= u && u <= 13) || u == 32 || u == 0x85 || u == 0xA0 || u == 0x1680 || (0x2000 <= u
        && u <= 0x200A) || u == 0x2028 || u == 0x2029 || u == 0x202F || u == 0x205F || u == 0x3000
}

pub fn is_space(c: char) -> (r: bool)
    ensures
        r == is_space_char(c),
{
    let u: u32 = c as u32;
    (9 <= u && u <= 13) || u == 32 || u == 0x85 || u == 0xA0 || u == 0x1680 || (0x2000 <= u
        && u <= 0x200A) || u == 0x2028 || u == 0x2029 || u == 0x202F || u == 0x205F || u == 0x3000
}

/// An ASCII decimal digit.
pub open spec fn is_digit_char(c: char) -> bool {
    48 <= c as u32 && c as u32 <= 57
}

pub fn is_digit(c: char) -> (r: bool)
    ensures
        r == is_digit_char(c),
{
    let u: u32 = c as u32;
    48 <= u && u <= 57
}

// ---------------------------------------------------------------------------
// Token categories
// ---------------------------------------------------------------------------

pub open spec fn id_item() -> Seq<char> {
    seq!['I', 'T', 'E', 'M']
}

pub open spec fn id_number_lit() -> Seq<char> {
    seq!['N', 'U', 'M', 'B', 'E', 'R', '_', 'L', 'I', 'T']
}

pub open spec fn id_string_lit() -> Seq<char> {
    seq!['S', 'T', 'R', 'I', 'N', 'G', '_', 'L', 'I', 'T']
}

pub open spec fn id_open_paren() -> Seq<char> {
    seq!['O', 'P', 'E', 'N', '_', 'P', 'A', 'R', 'E', 'N']
}

pub open spec fn id_clos_paren() -> Seq<char> {
    seq!['C', 'L', 'O', 'S', '_', 'P', 'A', 'R', 'E', 'N']
}

pub open spec fn id_clos_exprn() -> Seq<char> {
    seq!['C', 'L', 'O', 'S', '_', 'E', 'X', 'P', 'R', 'N']
}

pub open spec fn id_symb_comma() -> Seq<char> {
    seq!['S', 'Y', 'M', 'B', '_', 'C', 'O', 'M', 'M', 'A']
}

pub open spec fn id_symb_bslsh() -> Seq<char> {
    seq!['S', 'Y', 'M', 'B', '_', 'B', 'S', 'L', 'S', 'H']
}

pub open spec fn id_oper_equal() -> Seq<char> {
    seq!['O', 'P', 'E', 'R', '_', 'E', 'Q', 'U', 'A', 'L']
}

pub open spec fn id_oper_addtn() -> Seq<char> {
    seq!['O', 'P', 'E', 'R', '_', 'A', 'D', 'D', 'T', 'N']
}

pub open spec fn id_oper_minus() -> Seq<char> {
    seq!['O', 'P', 'E', 'R', '_', 'M', 'I', 'N', 'U', 'S']
}

pub open spec fn id_oper_multi() -> Seq<char> {
    seq!['O', 'P', 'E', 'R', '_', 'M', 'U', 'L', 'T', 'I']
}

pub open spec fn id_oper_modul() -> Seq<char> {
    seq!['O', 'P', 'E', 'R', '_', 'M', 'O', 'D', 'U', 'L']
}

pub open spec fn id_oper_fslsh() -> Seq<char> {
    seq!['O', 'P', 'E', 'R', '_', 'F', 'S', 'L', 'S', 'H']
}

pub open spec fn id_oper_is_more() -> Seq<char> {
    seq!['O', 'P', 'E', 'R', '_', 'I', 'S', '_', 'M', 'O', 'R', 'E']
}

pub open spec fn id_oper_is_less() -> Seq<char> {
    seq!['O', 'P', 'E', 'R', '_', 'I', 'S', '_', 'L', 'E', 'S', 'S']
}

/// The synthetic category handed out when the parser's cursor leaves the
/// token sequence.
pub open spec fn id_end() -> Seq<char> {
    seq!['E', 'N', 'D']
}

/// Ties each category constant to the view of the string literal that the
/// executable code builds tokens from.
pub proof fn lemma_id_views()
    ensures
        "ITEM"@ == id_item(),
        "NUMBER_LIT"@ == id_number_lit(),
        "STRING_LIT"@ == id_string_lit(),
        "OPEN_PAREN"@ == id_open_paren(),
        "CLOS_PAREN"@ == id_clos_paren(),
        "CLOS_EXPRN"@ == id_clos_exprn(),
        "SYMB_COMMA"@ == id_symb_comma(),
        "SYMB_BSLSH"@ == id_symb_bslsh(),
        "OPER_EQUAL"@ == id_oper_equal(),
        "OPER_ADDTN"@ == id_oper_addtn(),
        "OPER_MINUS"@ == id_oper_minus(),
        "OPER_MULTI"@ == id_oper_multi(),
        "OPER_MODUL"@ == id_oper_modul(),
        "OPER_FSLSH"@ == id_oper_fslsh(),
        "OPER_IS_MORE"@ == id_oper_is_more(),
        "OPER_IS_LESS"@ == id_oper_is_less(),
        "END"@ == id_end(),
{
    reveal_strlit("ITEM");
    reveal_strlit("NUMBER_LIT");
    reveal_strlit("STRING_LIT");
    reveal_strlit("OPEN_PAREN");
    reveal_strlit("CLOS_PAREN");
    reveal_strlit("CLOS_EXPRN");
    reveal_strlit("SYMB_COMMA");
    reveal_strlit("SYMB_BSLSH");
    reveal_strlit("OPER_EQUAL");
    reveal_strlit("OPER_ADDTN");
    reveal_strlit("OPER_MINUS");
    reveal_strlit("OPER_MULTI");
    reveal_strlit("OPER_MODUL");
    reveal_strlit("OPER_FSLSH");
    reveal_strlit("OPER_IS_MORE");
    reveal_strlit("OPER_IS_LESS");
    reveal_strlit("END");
    assert("ITEM"@ =~= id_item());
    assert("NUMBER_LIT"@ =~= id_number_lit());
    assert("STRING_LIT"@ =~= id_string_lit());
    assert("OPEN_PAREN"@ =~= id_open_paren());
    assert("CLOS_PAREN"@ =~= id_clos_paren());
    assert("CLOS_EXPRN"@ =~= id_clos_exprn());
    assert("SYMB_COMMA"@ =~= id_symb_comma());
    assert("SYMB_BSLSH"@ =~= id_symb_bslsh());
    assert("OPER_EQUAL"@ =~= id_oper_equal());
    assert("OPER_ADDTN"@ =~= id_oper_addtn());
    assert("OPER_MINUS"@ =~= id_oper_minus());
    assert("OPER_MULTI"@ =~= id_oper_multi());
    assert("OPER_MODUL"@ =~= id_oper_modul());
    assert("OPER_FSLSH"@ =~= id_oper_fslsh());
    assert("OPER_IS_MORE"@ =~= id_oper_is_more());
    assert("OPER_IS_LESS"@ =~= id_oper_is_less());
    assert("END"@ =~= id_end());
}

/// The single-character symbol table: punctuation, grouping, the expression
/// terminator and the operators. The notation also spells two-character
/// operators, but the scanner examines one character at a time and never
/// composes them, so they need no entries here.
pub open spec fn sym_id_spec(c: char) -> Option<Seq<char>> {
    if c == ',' {
        Some(id_symb_comma())
    } else if c == '(' || c == '{' {
        Some(id_open_paren())
    } else if c == ')' || c == '}' {
        Some(id_clos_paren())
    } else if c == ';' {
        Some(id_clos_exprn())
    } else if c == '=' {
        Some(id_oper_equal())
    } else if c == '+' {
        Some(id_oper_addtn())
    } else if c == '-' {
        Some(id_oper_minus())
    } else if c == '*' {
        Some(id_oper_multi())
    } else if c == '%' {
        Some(id_oper_modul())
    } else if c == '/' {
        Some(id_oper_fslsh())
    } else if c == '\\' {
        Some(id_symb_bslsh())
    } else if c == '>' {
        Some(id_oper_is_more())
    } else if c == '<' {
        Some(id_oper_is_less())
    } else {
        None
    }
}

fn sym_lookup(c: char) -> (r: Option<&'static str>)
    ensures
        match r {
            Some(s) => sym_id_spec(c) == Some(s@),
            None => sym_id_spec(c) is None,
        },
{
    proof {
        lemma_id_views();
    }
    if c == ',' {
        Some("SYMB_COMMA")
    } else if c == '(' || c == '{' {
        Some("OPEN_PAREN")
    } else if c == ')' || c == '}' {
        Some("CLOS_PAREN")
    } else if c == ';' {
        Some("CLOS_EXPRN")
    } else if c == '=' {
        Some("OPER_EQUAL")
    } else if c == '+' {
        Some("OPER_ADDTN")
    } else if c == '-' {
        Some("OPER_MINUS")
    } else if c == '*' {
        Some("OPER_MULTI")
    } else if c == '%' {
        Some("OPER_MODUL")
    } else if c == '/' {
        Some("OPER_FSLSH")
    } else if c == '\\' {
        Some("SYMB_BSLSH")
    } else if c == '>' {
        Some("OPER_IS_MORE")
    } else if c == '<' {
        Some("OPER_IS_LESS")
    } else {
        None
    }
}

// ---------------------------------------------------------------------------
// Tokens
// ---------------------------------------------------------------------------

/// The mathematical model of a token: a category and the raw text that
/// produced it.
#[verifier::ext_equal]
pub ghost struct TokenV {
    pub id: Seq<char>,
    pub value: Seq<char>,
}

pub open spec fn tok(id: Seq<char>, value: Seq<char>) -> TokenV {
    TokenV { id, value }
}

/// A token: a symbolic category tag and the literal characters it came from.
/// Immutable once created.
#[derive(Clone)]
pub struct Token {
    pub id: String,
    pub value: String,
}

impl View for Token {
    type V = TokenV;

    open spec fn view(&self) -> TokenV {
        TokenV { id: self.id@, value: self.value@ }
    }
}

impl Token {
    pub fn new(id: &str, value: &str) -> (t: Token)
        ensures
            t@ == (TokenV { id: id@, value: value@ }),
    {
        Token { id: id.to_owned(), value: value.to_owned() }
    }
}

pub open spec fn toks_of(ts: Seq<Token>) -> Seq<TokenV> {
    Seq::new(ts.len(), |i: int| ts[i]@)
}

// ---------------------------------------------------------------------------
// Plumbing between `String` and character sequences
// ---------------------------------------------------------------------------

/// Builds the `String` whose characters are exactly those of `v`, in order.
/// Relies on `FromIterator for String` collecting a character iterator.
#[verifier::external_body]
pub(crate) fn chars_to_string(v: &Vec<char>) -> (s: String)
    ensures
        s@ == v@,
{
    v.iter().collect()
}

pub(crate) fn str_to_chars(s: &str) -> (v: Vec<char>)
    ensures
        v@ == s@,
{
    let n: usize = s.unicode_len();
    let mut v: Vec<char> = Vec::new();
    let mut i: usize = 0;
    while i < n
        invariant
            i <= n,
            n == s@.len(),
            v@ == s@.take(i as int),
        decreases n - i,
    {
        let c: char = s.get_char(i);
        v.push(c);
        i = i + 1;
        proof {
            assert(v@ =~= s@.take(i as int));
        }
    }
    proof {
        assert(s@.take(n as int) =~= s@);
    }
    v
}

/// Character-for-character equality of two string slices.
pub(crate) fn eq_str(a: &str, b: &str) -> (r: bool)
    ensures
        r == (a@ == b@),
{
    let n: usize = a.unicode_len();
    if n != b.unicode_len() {
        return false;
    }
    let mut i: usize = 0;
    while i < n
        invariant
            i <= n,
            n == a@.len(),
            n == b@.len(),
            forall|j: int| 0 <= j < i ==> a@[j] == b@[j],
        decreases n - i,
    {
        if a.get_char(i) != b.get_char(i) {
            return false;
        }
        i = i + 1;
    }
    proof {
        assert(a@ =~= b@);
    }
    true
}

// ---------------------------------------------------------------------------
// Comment stripping
// ---------------------------------------------------------------------------

/// Number of characters before the first newline (the whole length when no
/// newline occurs).
pub open spec fn first_line_len(s: Seq<char>) -> nat
    decreases s.len(),
{
    if s.len() == 0 {
        0
    } else if s[0] == '\n' {
        0
    } else {
        1 + first_line_len(s.skip(1))
    }
}

pub proof fn lemma_first_line_len(s: Seq<char>)
    ensures
        first_line_len(s) <= s.len(),
        first_line_len(s) < s.len() ==> s[first_line_len(s) as int] == '\n',
        forall|j: int| 0 <= j < first_line_len(s) ==> s[j] != '\n',
    decreases s.len(),
{
    if s.len() == 0 {
    } else if s[0] == '\n' {
    } else {
        lemma_first_line_len(s.skip(1));
        assert forall|j: int| 0 <= j < first_line_len(s) implies s[j] != '\n' by {
            if j > 0 {
                assert(s.skip(1)[j - 1] != '\n');
            }
        }
    }
}

/// The sequence without its leading white space.
pub open spec fn drop_leading(s: Seq<char>) -> Seq<char>
    decreases s.len(),
{
    if s.len() > 0 && is_space_char(s[0]) {
        drop_leading(s.skip(1))
    } else {
        s
    }
}

/// The sequence without its trailing white space.
pub open spec fn drop_trailing(s: Seq<char>) -> Seq<char>
    decreases s.len(),
{
    if s.len() > 0 && is_space_char(s[s.len() - 1]) {
        drop_trailing(s.take(s.len() - 1))
    } else {
        s
    }
}

/// A line trimmed of leading and trailing white space.
pub open spec fn trim_of(s: Seq<char>) -> Seq<char> {
    drop_trailing(drop_leading(s))
}

/// A line survives stripping unless its trimmed form starts with the comment
/// marker.
pub open spec fn line_kept(l: Seq<char>) -> bool {
    trim_of(l).len() == 0 || trim_of(l)[0] != '#'
}

/// Whether any line of `s` survives stripping.
pub open spec fn any_kept(s: Seq<char>) -> bool
    decreases s.len(),
{
    let k = first_line_len(s);
    if k >= s.len() {
        line_kept(s)
    } else if line_kept(s.take(k as int)) {
        true
    } else {
        any_kept(s.skip(k as int + 1))
    }
}

/// Comment-stripped source text: comment lines removed, every surviving line
/// trimmed, survivors rejoined with newlines.
pub open spec fn strip_spec(s: Seq<char>) -> Seq<char>
    decreases s.len(),
{
    let k = first_line_len(s);
    if k >= s.len() {
        if line_kept(s) {
            trim_of(s)
        } else {
            Seq::empty()
        }
    } else {
        let line = s.take(k as int);
        let rest = strip_spec(s.skip(k as int + 1));
        if !line_kept(line) {
            rest
        } else if any_kept(s.skip(k as int + 1)) {
            trim_of(line) + seq!['\n'] + rest
        } else {
            trim_of(line)
        }
    }
}

/// Length of the line that starts at `p`.
fn line_len_from(cs: &Vec<char>, p: usize) -> (k: usize)
    requires
        p <= cs.len(),
    ensures
        k == first_line_len(cs@.skip(p as int)),
        p + k <= cs.len(),
{
    let mut j: usize = p;
    while j < cs.len() && cs[j] != '\n'
        invariant
            p <= j <= cs.len(),
            first_line_len(cs@.skip(p as int)) == (j - p) + first_line_len(cs@.skip(j as int)),
        decreases cs.len() - j,
    {
        proof {
            assert(cs@.skip(j as int)[0] == cs@[j as int]);
            assert(cs@.skip(j as int).skip(1) =~= cs@.skip(j + 1));
        }
        j = j + 1;
    }
    proof {
        if j == cs.len() {
            assert(cs@.skip(j as int).len() == 0);
        } else {
            assert(cs@.skip(j as int)[0] == '\n');
        }
        assert(first_line_len(cs@.skip(j as int)) == 0);
    }
    j - p
}

/// Bounds of the trimmed form of `cs[lo..hi]`: the trimmed line is
/// `cs[a..b]`.
fn trim_bounds(cs: &Vec<char>, lo: usize, hi: usize) -> (r: (usize, usize))
    requires
        lo <= hi <= cs.len(),
    ensures
        lo <= r.0 <= r.1 <= hi,
        trim_of(cs@.subrange(lo as int, hi as int)) == cs@.subrange(r.0 as int, r.1 as int),
{
    let mut a: usize = lo;
    while a < hi && is_space(cs[a])
        invariant
            lo <= a <= hi <= cs.len(),
            drop_leading(cs@.subrange(lo as int, hi as int)) == drop_leading(
                cs@.subrange(a as int, hi as int),
            ),
        decreases hi - a,
    {
        proof {
            assert(cs@.subrange(a as int, hi as int)[0] == cs@[a as int]);
            assert(cs@.subrange(a as int, hi as int).skip(1) =~= cs@.subrange(a + 1, hi as int));
        }
        a = a + 1;
    }
    proof {
        if a < hi {
            assert(cs@.subrange(a as int, hi as int)[0] == cs@[a as int]);
        }
        assert(drop_leading(cs@.subrange(a as int, hi as int)) == cs@.subrange(
            a as int,
            hi as int,
        ));
    }
    let mut b: usize = hi;
    while b > a && is_space(cs[b - 1])
        invariant
            a <= b <= hi <= cs.len(),
            drop_trailing(cs@.subrange(a as int, hi as int)) == drop_trailing(
                cs@.subrange(a as int, b as int),
            ),
        decreases b,
    {
        proof {
            let sub = cs@.subrange(a as int, b as int);
            assert(sub[sub.len() - 1] == cs@[b - 1]);
            assert(sub.take(sub.len() - 1) =~= cs@.subrange(a as int, b - 1));
        }
        b = b - 1;
    }
    proof {
        let sub = cs@.subrange(a as int, b as int);
        if b > a {
            assert(sub[sub.len() - 1] == cs@[b - 1]);
        }
        assert(drop_trailing(sub) == sub);
    }
    (a, b)
}

/// Copies `cs[a..b]` into a fresh vector.
fn vec_range(cs: &Vec<char>, a: usize, b: usize) -> (r: Vec<char>)
    requires
        a <= b <= cs.len(),
    ensures
        r@ == cs@.subrange(a as int, b as int),
{
    let mut r: Vec<char> = Vec::new();
    let mut i: usize = a;
    while i < b
        invariant
            a <= i <= b <= cs.len(),
            r@ == cs@.subrange(a as int, i as int),
        decreases b - i,
    {
        r.push(cs[i]);
        i = i + 1;
        proof {
            assert(r@ =~= cs@.subrange(a as int, i as int));
        }
    }
    r
}

fn append_chars(dst: &mut Vec<char>, src: &Vec<char>)
    ensures
        final(dst)@ == old(dst)@ + src@,
{
    let mut i: usize = 0;
    while i < src.len()
        invariant
            i <= src.len(),
            dst@ == old(dst)@ + src@.take(i as int),
        decreases src.len() - i,
    {
        dst.push(src[i]);
        i = i + 1;
        proof {
            assert(old(dst)@ + src@.take(i as int) =~= (old(dst)@ + src@.take(i - 1)).push(
                src@[i - 1],
            ));
        }
    }
    proof {
        assert(src@.take(src.len() as int) =~= src@);
    }
}

/// Whether any line at or after `p` survives stripping.
fn any_kept_from(cs: &Vec<char>, p: usize) -> (r: bool)
    requires
        p <= cs.len(),
    ensures
        r == any_kept(cs@.skip(p as int)),
    decreases cs.len() - p,
{
    let ghost suf = cs@.skip(p as int);
    let k: usize = line_len_from(cs, p);
    proof {
        lemma_first_line_len(suf);
    }
    let ab: (usize, usize) = trim_bounds(cs, p, p + k);
    let kept: bool = ab.0 == ab.1 || cs[ab.0] != '#';
    proof {
        assert(suf.take(k as int) =~= cs@.subrange(p as int, (p + k) as int));
        let t = trim_of(suf.take(k as int));
        assert(t == cs@.subrange(ab.0 as int, ab.1 as int));
        if ab.0 < ab.1 {
            assert(t[0] == cs@[ab.0 as int]);
        }
        assert(kept == line_kept(suf.take(k as int)));
    }
    if p + k == cs.len() {
        proof {
            assert(suf.take(k as int) =~= suf);
        }
        kept
    } else if kept {
        true
    } else {
        proof {
            assert(suf.skip(k as int + 1) =~= cs@.skip((p + k + 1) as int));
        }
        any_kept_from(cs, p + k + 1)
    }
}

/// Comment stripping from position `p` on.
fn strip_from(cs: &Vec<char>, p: usize) -> (r: Vec<char>)
    requires
        p <= cs.len(),
    ensures
        r@ == strip_spec(cs@.skip(p as int)),
    decreases cs.len() - p,
{
    let ghost suf = cs@.skip(p as int);
    let k: usize = line_len_from(cs, p);
    proof {
        lemma_first_line_len(suf);
    }
    let ab: (usize, usize) = trim_bounds(cs, p, p + k);
    let kept: bool = ab.0 == ab.1 || cs[ab.0] != '#';
    proof {
        assert(suf.take(k as int) =~= cs@.subrange(p as int, (p + k) as int));
        let t = trim_of(suf.take(k as int));
        assert(t == cs@.subrange(ab.0 as int, ab.1 as int));
        if ab.0 < ab.1 {
            assert(t[0] == cs@[ab.0 as int]);
        }
        assert(kept == line_kept(suf.take(k as int)));
    }
    if p + k == cs.len() {
        proof {
            assert(suf.take(k as int) =~= suf);
        }
        if kept {
            vec_range(cs, ab.0, ab.1)
        } else {
            Vec::new()
        }
    } else {
        proof {
            assert(suf.skip(k as int + 1) =~= cs@.skip((p + k + 1) as int));
        }
        let rest: Vec<char> = strip_from(cs, p + k + 1);
        if !kept {
            rest
        } else {
            let mut out: Vec<char> = vec_range(cs, ab.0, ab.1);
            if any_kept_from(cs, p + k + 1) {
                out.push('\n');
                append_chars(&mut out, &rest);
                proof {
                    assert(out@ =~= trim_of(suf.take(k as int)) + seq!['\n'] + rest@);
                }
            }
            out
        }
    }
}

// ---------------------------------------------------------------------------
// Source text
// ---------------------------------------------------------------------------

/// Owned program text. Comment lines are removed and every surviving line is
/// trimmed before lexing.
pub struct Source {
    pub contents: String,
}

impl Source {
    pub fn new(contents: &str) -> (s: Source)
        ensures
            s.contents@ == contents@,
    {
        Source { contents: contents.to_owned() }
    }

    /// The contents with comment lines removed, each surviving line trimmed,
    /// and survivors rejoined with newlines.
    pub fn strip_comments(&self) -> (r: String)
        ensures
            r@ == strip_spec(self.contents@),
    {
        let cs: Vec<char> = str_to_chars(self.contents.as_str());
        proof {
            assert(cs@.skip(0) =~= cs@);
        }
        let out: Vec<char> = strip_from(&cs, 0);
        chars_to_string(&out)
    }
}

// ---------------------------------------------------------------------------
// The scanning machine
// ---------------------------------------------------------------------------

/// The scanner state: the two literal modes, the quote character that opened
/// the current string literal, the accumulation buffer of pending characters,
/// and the tokens emitted so far.
#[verifier::ext_equal]
pub ghost struct LexStateV {
    pub in_string: bool,
    pub quote: char,
    pub in_number: bool,
    pub buffer: Seq<char>,
    pub tokens: Seq<TokenV>,
}

pub open spec fn lex_init() -> LexStateV {
    LexStateV {
        in_string: false,
        quote: ' ',
        in_number: false,
        buffer: Seq::empty(),
        tokens: Seq::empty(),
    }
}

/// A numeric literal has ended: the buffered digits are flushed as a number
/// token and plain scanning resumes.
pub open spec fn flush_number(st: LexStateV) -> LexStateV {
    LexStateV {
        in_number: false,
        buffer: Seq::empty(),
        tokens: st.tokens.push(tok(id_number_lit(), st.buffer)),
        ..st
    }
}

/// One character of scanning. The rules, in priority order: close or extend a
/// string literal; extend or end a numeric literal (the terminating character
/// is then re-examined below, except that a character no later rule claims is
/// discarded rather than buffered); start a numeric literal; open a string
/// literal (discarding pending text); end a pending item at white space; the
/// special multi-character-composition set `| = &`, of which only `=` emits a
/// token and which discards pending text; a symbol-table character, which
/// first flushes pending text as an item; otherwise buffer the character.
pub open spec fn lex_step(st: LexStateV, c: char) -> LexStateV {
    if st.in_string {
        if c == st.quote {
            LexStateV {
                in_string: false,
                buffer: Seq::empty(),
                tokens: st.tokens.push(tok(id_string_lit(), st.buffer)),
                ..st
            }
        } else {
            LexStateV { buffer: st.buffer.push(c), ..st }
        }
    } else if st.in_number && (is_digit_char(c) || c == '.') {
        LexStateV { buffer: st.buffer.push(c), ..st }
    } else {
        let st1 = if st.in_number {
            flush_number(st)
        } else {
            st
        };
        if is_digit_char(c) {
            LexStateV { in_number: true, buffer: seq![c], ..st1 }
        } else if c == '\'' || c == '"' {
            LexStateV { in_string: true, quote: c, buffer: Seq::empty(), ..st1 }
        } else if is_space_char(c) {
            LexStateV {
                buffer: Seq::empty(),
                tokens: if st1.buffer.len() > 0 {
                    st1.tokens.push(tok(id_item(), st1.buffer))
                } else {
                    st1.tokens
                },
                ..st1
            }
        } else if c == '|' || c == '=' || c == '&' {
            LexStateV {
                buffer: Seq::empty(),
                tokens: if c == '=' {
                    st1.tokens.push(tok(id_oper_equal(), seq!['=']))
                } else {
                    st1.tokens
                },
                ..st1
            }
        } else if sym_id_spec(c) is Some {
            let flushed = if st1.buffer.len() > 0 {
                st1.tokens.push(tok(id_item(), st1.buffer))
            } else {
                st1.tokens
            };
            LexStateV {
                buffer: Seq::empty(),
                tokens: flushed.push(tok(sym_id_spec(c)->0, seq![c])),
                ..st1
            }
        } else if st.in_number {
            st1
        } else {
            LexStateV { buffer: st1.buffer.push(c), ..st1 }
        }
    }
}

pub open spec fn lex_run(st: LexStateV, s: Seq<char>) -> LexStateV
    decreases s.len(),
{
    if s.len() == 0 {
        st
    } else {
        lex_run(lex_step(st, s[0]), s.skip(1))
    }
}

/// End of input: an open numeric literal is flushed, then an open string
/// literal (an unterminated string is closed at end of input).
pub open spec fn lex_finish(st: LexStateV) -> Seq<TokenV> {
    let t1 = if st.in_number {
        st.tokens.push(tok(id_number_lit(), st.buffer))
    } else {
        st.tokens
    };
    if st.in_string {
        t1.push(tok(id_string_lit(), st.buffer))
    } else {
        t1
    }
}

/// The token sequence of a comment-stripped text.
pub open spec fn lex_spec(s: Seq<char>) -> Seq<TokenV> {
    lex_finish(lex_run(lex_init(), s))
}

// ---------------------------------------------------------------------------
// Laws of the scanner
// ---------------------------------------------------------------------------

/// `a` occurs within `b` as a subsequence: in order, each element of `b`
/// used at most once.
pub open spec fn is_subseq(a: Seq<char>, b: Seq<char>) -> bool
    decreases a.len() + b.len(),
{
    if a.len() == 0 {
        true
    } else if b.len() == 0 {
        false
    } else {
        (a[0] == b[0] && is_subseq(a.skip(1), b.skip(1))) || is_subseq(a, b.skip(1))
    }
}

proof fn lemma_subseq_snoc_right(a: Seq<char>, b: Seq<char>, c: char)
    requires
        is_subseq(a, b),
    ensures
        is_subseq(a, b.push(c)),
    decreases a.len() + b.len(),
{
    if a.len() == 0 {
        assert(is_subseq(a, b.push(c)));
    } else if b.len() == 0 {
        assert(false);
    } else {
        assert(b.push(c)[0] == b[0]);
        assert(b.push(c).skip(1) =~= b.skip(1).push(c));
        if a[0] == b[0] && is_subseq(a.skip(1), b.skip(1)) {
            lemma_subseq_snoc_right(a.skip(1), b.skip(1), c);
        } else {
            lemma_subseq_snoc_right(a, b.skip(1), c);
        }
    }
}

proof fn lemma_subseq_snoc_both(a: Seq<char>, b: Seq<char>, c: char)
    requires
        is_subseq(a, b),
    ensures
        is_subseq(a.push(c), b.push(c)),
    decreases a.len() + b.len(),
{
    if a.len() == 0 {
        if b.len() == 0 {
            assert(a.push(c)[0] == b.push(c)[0]);
            assert(a.push(c).skip(1) =~= Seq::<char>::empty());
            assert(b.push(c).skip(1) =~= Seq::<char>::empty());
            assert(is_subseq(Seq::<char>::empty(), Seq::<char>::empty()));
            assert(is_subseq(a.push(c), b.push(c)));
        } else {
            lemma_subseq_snoc_both(a, b.skip(1), c);
            assert(b.push(c).skip(1) =~= b.skip(1).push(c));
            assert(is_subseq(a.push(c), b.push(c).skip(1)));
        }
    } else {
        assert(b.len() > 0);
        assert(a.push(c)[0] == a[0]);
        assert(b.push(c)[0] == b[0]);
        assert(a.push(c).skip(1) =~= a.skip(1).push(c));
        assert(b.push(c).skip(1) =~= b.skip(1).push(c));
        if a[0] == b[0] && is_subseq(a.skip(1), b.skip(1)) {
            lemma_subseq_snoc_both(a.skip(1), b.skip(1), c);
        } else {
            lemma_subseq_snoc_both(a, b.skip(1), c);
        }
    }
}

proof fn lemma_subseq_drop_suffix(a: Seq<char>, x: Seq<char>, b: Seq<char>)
    requires
        is_subseq(a + x, b),
    ensures
        is_subseq(a, b),
    decreases a.len() + b.len(),
{
    if a.len() == 0 {
    } else if b.len() == 0 {
        assert((a + x).len() > 0);
        assert(false);
    } else {
        assert((a + x)[0] == a[0]);
        assert((a + x).skip(1) =~= a.skip(1) + x);
        if (a + x)[0] == b[0] && is_subseq((a + x).skip(1), b.skip(1)) {
            lemma_subseq_drop_suffix(a.skip(1), x, b.skip(1));
        } else {
            lemma_subseq_drop_suffix(a, x, b.skip(1));
        }
    }
}

/// The tokens' raw text, concatenated in order.
pub open spec fn token_text(ts: Seq<TokenV>) -> Seq<char>
    decreases ts.len(),
{
    if ts.len() == 0 {
        Seq::empty()
    } else {
        ts[0].value + token_text(ts.skip(1))
    }
}

proof fn lemma_token_text_snoc(ts: Seq<TokenV>, t: TokenV)
    ensures
        token_text(ts.push(t)) == token_text(ts) + t.value,
    decreases ts.len(),
{
    if ts.len() == 0 {
        assert(ts.push(t)[0] == t);
        assert(ts.push(t).skip(1) =~= Seq::<TokenV>::empty());
        assert(token_text(Seq::<TokenV>::empty()) == Seq::<char>::empty());
        assert(token_text(ts.push(t)) == t.value + Seq::<char>::empty());
        assert(token_text(ts.push(t)) =~= token_text(ts) + t.value);
    } else {
        lemma_token_text_snoc(ts.skip(1), t);
        assert(ts.push(t)[0] == ts[0]);
        assert(ts.push(t).skip(1) =~= ts.skip(1).push(t));
        assert(token_text(ts) == ts[0].value + token_text(ts.skip(1)));
        assert(token_text(ts.push(t)) == ts[0].value + token_text(ts.skip(1).push(t)));
        assert(token_text(ts.push(t)) =~= token_text(ts) + t.value);
    }
}

/// The scanner's running claim: what its tokens and pending buffer spell is a
/// subsequence of the characters consumed so far, and the two literal modes
/// exclude each other.
pub open spec fn scan_claim(st: LexStateV, consumed: Seq<char>) -> bool {
    &&& is_subseq(token_text(st.tokens) + st.buffer, consumed)
    &&& !(st.in_number && st.in_string)
}

proof fn lemma_step_claim(st: LexStateV, c: char, consumed: Seq<char>)
    requires
        scan_claim(st, consumed),
    ensures
        scan_claim(lex_step(st, c), consumed.push(c)),
{
    let tt = token_text(st.tokens);
    let x0 = tt + st.buffer;
    let st2 = lex_step(st, c);
    if st.in_string {
        if c == st.quote {
            lemma_token_text_snoc(st.tokens, tok(id_string_lit(), st.buffer));
            assert(token_text(st2.tokens) + st2.buffer =~= x0);
            lemma_subseq_snoc_right(x0, consumed, c);
        } else {
            assert(token_text(st2.tokens) + st2.buffer =~= x0.push(c));
            lemma_subseq_snoc_both(x0, consumed, c);
        }
    } else if st.in_number && (is_digit_char(c) || c == '.') {
        assert(token_text(st2.tokens) + st2.buffer =~= x0.push(c));
        lemma_subseq_snoc_both(x0, consumed, c);
    } else {
        let st1 = if st.in_number {
            flush_number(st)
        } else {
            st
        };
        let tt1 = token_text(st1.tokens);
        if st.in_number {
            lemma_token_text_snoc(st.tokens, tok(id_number_lit(), st.buffer));
            assert(tt1 =~= x0);
        }
        assert(tt1 + st1.buffer =~= x0);
        assert(is_subseq(tt1 + st1.buffer, consumed));
        lemma_subseq_drop_suffix(tt1, st1.buffer, consumed);
        if is_digit_char(c) {
            assert(token_text(st2.tokens) + st2.buffer =~= tt1.push(c));
            lemma_subseq_snoc_both(tt1, consumed, c);
        } else if c == '\'' || c == '"' {
            assert(token_text(st2.tokens) + st2.buffer =~= tt1);
            lemma_subseq_snoc_right(tt1, consumed, c);
        } else if is_space_char(c) {
            if st1.buffer.len() > 0 {
                lemma_token_text_snoc(st1.tokens, tok(id_item(), st1.buffer));
                assert(token_text(st2.tokens) + st2.buffer =~= x0);
                lemma_subseq_snoc_right(x0, consumed, c);
            } else {
                assert(token_text(st2.tokens) + st2.buffer =~= tt1);
                lemma_subseq_snoc_right(tt1, consumed, c);
            }
        } else if c == '|' || c == '=' || c == '&' {
            if c == '=' {
                lemma_token_text_snoc(st1.tokens, tok(id_oper_equal(), seq!['=']));
                assert(token_text(st2.tokens) + st2.buffer =~= tt1.push(c));
                lemma_subseq_snoc_both(tt1, consumed, c);
            } else {
                assert(token_text(st2.tokens) + st2.buffer =~= tt1);
                lemma_subseq_snoc_right(tt1, consumed, c);
            }
        } else if sym_id_spec(c) is Some {
            let flushed = if st1.buffer.len() > 0 {
                st1.tokens.push(tok(id_item(), st1.buffer))
            } else {
                st1.tokens
            };
            if st1.buffer.len() > 0 {
                lemma_token_text_snoc(st1.tokens, tok(id_item(), st1.buffer));
            }
            assert(token_text(flushed) =~= x0);
            lemma_token_text_snoc(flushed, tok(sym_id_spec(c)->0, seq![c]));
            assert(token_text(st2.tokens) + st2.buffer =~= x0.push(c));
            lemma_subseq_snoc_both(x0, consumed, c);
        } else if st.in_number {
            assert(token_text(st2.tokens) + st2.buffer =~= tt1);
            lemma_subseq_snoc_right(tt1, consumed, c);
        } else {
            assert(token_text(st2.tokens) + st2.buffer =~= x0.push(c));
            lemma_subseq_snoc_both(x0, consumed, c);
        }
    }
}

proof fn lemma_run_claim(st: LexStateV, s: Seq<char>, consumed: Seq<char>)
    requires
        scan_claim(st, consumed),
    ensures
        scan_claim(lex_run(st, s), consumed + s),
    decreases s.len(),
{
    if s.len() == 0 {
        assert(consumed + s =~= consumed);
    } else {
        lemma_step_claim(st, s[0], consumed);
        lemma_run_claim(lex_step(st, s[0]), s.skip(1), consumed.push(s[0]));
        assert(consumed.push(s[0]) + s.skip(1) =~= consumed + s);
    }
}

/// The tokens' raw text, concatenated in order, reproduces characters of the
/// scanned text: every character of every token comes from the text, in
/// source order, and no character of the text is used twice.
pub proof fn lemma_lex_subsequence(s: Seq<char>)
    ensures
        is_subseq(token_text(lex_spec(s)), s),
{
    assert(token_text(Seq::<TokenV>::empty()) + Seq::<char>::empty() =~= Seq::<char>::empty());
    assert(is_subseq(Seq::<char>::empty(), Seq::<char>::empty()));
    lemma_run_claim(lex_init(), s, Seq::empty());
    let st = lex_run(lex_init(), s);
    let tt = token_text(st.tokens);
    assert(Seq::<char>::empty() + s =~= s);
    assert(is_subseq(tt + st.buffer, s));
    if st.in_number {
        lemma_token_text_snoc(st.tokens, tok(id_number_lit(), st.buffer));
        assert(token_text(lex_finish(st)) =~= tt + st.buffer);
    } else if st.in_string {
        lemma_token_text_snoc(st.tokens, tok(id_string_lit(), st.buffer));
        assert(token_text(lex_finish(st)) =~= tt + st.buffer);
    } else {
        assert(token_text(lex_finish(st)) =~= tt);
        lemma_subseq_drop_suffix(tt, st.buffer, s);
    }
}

/// Scanning inside a string literal whose closing quote never occurs only
/// accumulates the characters into the buffer.
proof fn lemma_run_in_string(st: LexStateV, s: Seq<char>)
    requires
        st.in_string,
        forall|i: int| 0 <= i < s.len() ==> s[i] != st.quote,
    ensures
        lex_run(st, s) == (LexStateV { buffer: st.buffer + s, ..st }),
    decreases s.len(),
{
    if s.len() == 0 {
        assert(st.buffer + s =~= st.buffer);
        assert(lex_run(st, s) =~= (LexStateV { buffer: st.buffer + s, ..st }));
    } else {
        let st2 = lex_step(st, s[0]);
        assert(st2 =~= (LexStateV { buffer: st.buffer.push(s[0]), ..st }));
        lemma_run_in_string(st2, s.skip(1));
        assert(st.buffer.push(s[0]) + s.skip(1) =~= st.buffer + s);
    }
}

/// An unterminated string literal: a quote that opens a string whose closing
/// character never follows still yields exactly one string token, holding all
/// trailing characters.
pub proof fn lemma_unterminated_string(q: char, s: Seq<char>)
    requires
        q == '\'' || q == '"',
        forall|i: int| 0 <= i < s.len() ==> s[i] != q,
    ensures
        lex_spec(seq![q] + s) == seq![tok(id_string_lit(), s)],
{
    let w = seq![q] + s;
    assert(w[0] == q);
    assert(w.skip(1) =~= s);
    let st1 = lex_step(lex_init(), q);
    assert(!is_digit_char(q)) by {
        assert(('\'' as u32) == 39);
        assert(('"' as u32) == 34);
    }
    assert(st1 =~= (LexStateV {
        in_string: true,
        quote: q,
        in_number: false,
        buffer: Seq::empty(),
        tokens: Seq::empty(),
    }));
    lemma_run_in_string(st1, s);
    let st2 = lex_run(st1, s);
    assert(st2.buffer =~= s);
    assert(lex_spec(w) =~= seq![tok(id_string_lit(), s)]);
}

// ---------------------------------------------------------------------------
// The Lexer
// ---------------------------------------------------------------------------

/// Single-pass scanner over a `Source`, producing the token sequence that
/// `lex_spec` describes.
pub struct Lexer {
    source: Source,
    in_string: bool,
    in_number: bool,
    buffer: Vec<char>,
    in_string_type: char,
    tokens: Vec<Token>,
}

impl Lexer {
    pub closed spec fn st(self) -> LexStateV {
        LexStateV {
            in_string: self.in_string,
            quote: self.in_string_type,
            in_number: self.in_number,
            buffer: self.buffer@,
            tokens: toks_of(self.tokens@),
        }
    }

    pub closed spec fn toks(self) -> Seq<TokenV> {
        toks_of(self.tokens@)
    }

    pub closed spec fn src_text(self) -> Seq<char> {
        self.source.contents@
    }

    pub fn new(source: Source) -> (l: Lexer)
        ensures
            l.st() == lex_init(),
            l.toks() == Seq::<TokenV>::empty(),
            l.src_text() == source.contents@,
    {
        let l = Lexer {
            source,
            in_string: false,
            in_number: false,
            tokens: Vec::new(),
            in_string_type: ' ',
            buffer: Vec::new(),
        };
        proof {
            assert(toks_of(l.tokens@) =~= Seq::<TokenV>::empty());
            assert(l.st() =~= lex_init());
        }
        l
    }

    pub fn get_tokens(&self) -> (r: &Vec<Token>)
        ensures
            toks_of(r@) == self.toks(),
    {
        &self.tokens
    }

    /// Pushes one token, leaving the rest of the state alone.
    fn emit(&mut self, t: Token)
        ensures
            final(self).st() == (LexStateV {
                tokens: old(self).st().tokens.push(t@),
                ..old(self).st()
            }),
            final(self).src_text() == old(self).src_text(),
    {
        self.tokens.push(t);
        proof {
            assert(toks_of(self.tokens@) =~= toks_of(old(self).tokens@).push(t@));
        }
    }

    /// A numeric literal has ended: flush the buffered digits as a number
    /// token. The caller re-examines the terminating character against the
    /// remaining rules.
    fn handle_digit_char(&mut self)
        requires
            old(self).st().in_number,
        ensures
            final(self).st() == flush_number(old(self).st()),
            final(self).src_text() == old(self).src_text(),
    {
        proof {
            lemma_id_views();
        }
        let v: String = chars_to_string(&self.buffer);
        let t: Token = Token::new("NUMBER_LIT", v.as_str());
        self.emit(t);
        self.in_number = false;
        self.buffer = Vec::new();
        proof {
            assert(self.st() =~= flush_number(old(self).st()));
        }
    }

    /// Inside a string literal: the matching quote closes it and emits the
    /// buffered content as a string token; any other character keeps
    /// buffering.
    fn handle_string_char(&mut self, c: char) -> (ended: bool)
        requires
            old(self).st().in_string,
        ensures
            final(self).st() == lex_step(old(self).st(), c),
            final(self).src_text() == old(self).src_text(),
            ended == (c == old(self).st().quote),
    {
        if c == self.in_string_type {
            proof {
                lemma_id_views();
            }
            let v: String = chars_to_string(&self.buffer);
            let t: Token = Token::new("STRING_LIT", v.as_str());
            self.emit(t);
            self.in_string = false;
            self.buffer = Vec::new();
            proof {
                assert(self.st() =~= lex_step(old(self).st(), c));
            }
            true
        } else {
            self.buffer.push(c);
            proof {
                assert(self.st() =~= lex_step(old(self).st(), c));
            }
            false
        }
    }

    /// One character of scanning, as `lex_step` describes it.
    fn step_char(&mut self, c: char)
        ensures
            final(self).st() == lex_step(old(self).st(), c),
            final(self).src_text() == old(self).src_text(),
    {
        let ghost st0 = self.st();
        if self.in_string {
            let _ended = self.handle_string_char(c);
            return ;
        }
        let mut ended_number: bool = false;
        if self.in_number {
            if is_digit(c) || c == '.' {
                self.buffer.push(c);
                proof {
                    assert(self.st() =~= lex_step(st0, c));
                }
                return ;
            }
            self.handle_digit_char();
            ended_number = true;
        }
        if is_digit(c) {
            self.in_number = true;
            self.buffer = Vec::new();
            self.buffer.push(c);
            proof {
                assert(self.st().buffer =~= seq![c]);
                assert(self.st() =~= lex_step(st0, c));
            }
            return ;
        }
        if c == '\'' || c == '"' {
            self.buffer = Vec::new();
            self.in_string = true;
            self.in_string_type = c;
            proof {
                assert(self.st() =~= lex_step(st0, c));
            }
            return ;
        }
        if is_space(c) {
            if self.buffer.len() > 0 {
                proof {
                    lemma_id_views();
                }
                let v: String = chars_to_string(&self.buffer);
                let t: Token = Token::new("ITEM", v.as_str());
                self.emit(t);
            }
            self.buffer = Vec::new();
            proof {
                assert(self.st() =~= lex_step(st0, c));
            }
            return ;
        }
        if c == '|' || c == '=' || c == '&' {
            if c == '=' {
                proof {
                    lemma_id_views();
                    reveal_strlit("=");
                }
                let t: Token = Token::new("OPER_EQUAL", "=");
                proof {
                    assert(t@.value =~= seq!['=']);
                }
                self.emit(t);
            }
            self.buffer = Vec::new();
            proof {
                assert(self.st() =~= lex_step(st0, c));
            }
            return ;
        }
        let looked: Option<&'static str> = sym_lookup(c);
        match looked {
            Some(ids) => {
                if self.buffer.len() > 0 {
                    proof {
                        lemma_id_views();
                    }
                    let v: String = chars_to_string(&self.buffer);
                    let t: Token = Token::new("ITEM", v.as_str());
                    self.emit(t);
                }
                let mut cv: Vec<char> = Vec::new();
                cv.push(c);
                let v: String = chars_to_string(&cv);
                let t: Token = Token::new(ids, v.as_str());
                proof {
                    assert(t@.value =~= seq![c]);
                }
                self.emit(t);
                self.buffer = Vec::new();
                proof {
                    assert(self.st() =~= lex_step(st0, c));
                }
                return ;
            },
            None => {},
        }
        if !ended_number {
            self.buffer.push(c);
        }
        proof {
            assert(self.st() =~= lex_step(st0, c));
        }
    }

    /// Lexes the comment-stripped source in one eager pass. The resulting
    /// token sequence is exactly `lex_spec` of the stripped text.
    pub fn lex(&mut self)
        requires
            old(self).st() == lex_init(),
        ensures
            final(self).toks() == lex_spec(strip_spec(old(self).src_text())),
            final(self).src_text() == old(self).src_text(),
    {
        let stripped: String = self.source.strip_comments();
        let cs: Vec<char> = str_to_chars(stripped.as_str());
        let ghost full = cs@;
        let n: usize = cs.len();
        let mut i: usize = 0;
        proof {
            assert(full.skip(0) =~= full);
        }
        while i < n
            invariant
                i <= n,
                n == cs.len(),
                cs@ == full,
                lex_run(self.st(), full.skip(i as int)) == lex_run(lex_init(), full),
                self.src_text() == old(self).src_text(),
            decreases n - i,
        {
            let c: char = cs[i];
            proof {
                assert(full.skip(i as int)[0] == c);
                assert(full.skip(i as int).skip(1) =~= full.skip(i + 1));
            }
            self.step_char(c);
            i = i + 1;
        }
        proof {
            assert(full.skip(n as int) =~= Seq::<char>::empty());
        }
        let ghost stl = self.st();
        proof {
            assert(stl == lex_run(lex_init(), full));
        }
        if self.in_number {
            proof {
                lemma_id_views();
            }
            let v: String = chars_to_string(&self.buffer);
            let t: Token = Token::new("NUMBER_LIT", v.as_str());
            self.emit(t);
            self.in_number = false;
        }
        if self.in_string {
            proof {
                lemma_id_views();
            }
            let v: String = chars_to_string(&self.buffer);
            let t: Token = Token::new("STRING_LIT", v.as_str());
            self.emit(t);
            self.in_string = false;
        }
        proof {
            assert(self.toks() =~= lex_finish(stl));
            assert(full == strip_spec(old(self).src_text()));
        }
    }
}

} // verus!
