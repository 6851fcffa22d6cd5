use vstd::prelude::*;

verus! {

/// The sequence of raw word tokens that the word pattern
/// `\b\w+['-]*\w*\b` finds in a line, in left-to-right order of
/// occurrence. Which substrings the pattern matches is the regex
/// engine's affair; the library relies only on the tokens being a
/// function of the line alone.
pub uninterp spec fn raw_tokens_of(line: Seq<char>) -> Seq<Seq<char>>;

/// Unicode lowercasing as `str::to_lowercase` performs it; a function
/// of the characters alone.
pub uninterp spec fn lower_of(s: Seq<char>) -> Seq<char>;

/// The terms of one line of text: the raw word tokens, each lowercased.
pub open spec fn tokens_of(line: Seq<char>) -> Seq<Seq<char>> {
    raw_tokens_of(line).map_values(|t: Seq<char>| lower_of(t))
}

/// The terms of a document given as its lines, in reading order:
/// the terms of each line, concatenated.
pub open spec fn words_of_lines(lines: Seq<Seq<char>>) -> Seq<Seq<char>>
    decreases lines.len(),
{
    if lines.len() == 0 {
        Seq::empty()
    } else {
        tokens_of(lines[0]) + words_of_lines(lines.drop_first())
    }
}

pub proof fn lemma_words_of_lines_push(lines: Seq<Seq<char>>, line: Seq<char>)
    ensures
        words_of_lines(lines.push(line)) == words_of_lines(lines) + tokens_of(line),
    decreases lines.len(),
{
    if lines.len() == 0 {
        assert(lines.push(line).drop_first() =~= lines);
        assert(words_of_lines(lines) + tokens_of(line) =~= tokens_of(line) + words_of_lines(lines));
        assert(words_of_lines(lines.push(line)) =~= words_of_lines(lines) + tokens_of(line));
    } else {
        assert(lines.push(line).drop_first() =~= lines.drop_first().push(line));
        lemma_words_of_lines_push(lines.drop_first(), line);
        assert(words_of_lines(lines.push(line)) =~= words_of_lines(lines) + tokens_of(line));
    }
}

/// Declares `regex::Regex` so that a compiled pattern can be held in a
/// field; the value is opaque to the verifier.
#[verifier::external_type_specification]
#[verifier::external_body]
pub struct ExRegex(regex::Regex);

/// The word pattern, compiled once and reused across lines. The only
/// constructor compiles the one fixed pattern, so every value of this
/// type recognizes exactly the library's word grammar.
pub struct WordTokenizer {
    pattern: regex::Regex,
}

impl WordTokenizer {
    /// Relies on `regex::Regex::new`: compiling the fixed, valid word
    /// pattern always succeeds.
    #[verifier::external_body]
    pub fn new() -> (r: WordTokenizer)
    {
        WordTokenizer { pattern: regex::Regex::new(r"\b\w+['-]*\w*\b").unwrap() }
    }

    /// Relies on `regex::Regex::find_iter`: it yields the
    /// non-overlapping matches of the word pattern in left-to-right
    /// order, a function of the haystack alone.
    #[verifier::external_body]
    fn find_raw(&self, line: &str) -> (r: Vec<String>)
        ensures
            r.deep_view() == raw_tokens_of(line@),
    {
        self.pattern.find_iter(line).map(|m| m.as_str().to_string()).collect()
    }
}

/// Relies on `str::to_lowercase`: the result depends on the characters
/// of the input alone.
#[verifier::external_body]
pub(crate) fn lowercase(s: &str) -> (r: String)
    ensures
        r@ == lower_of(s@),
{
    s.to_lowercase()
}

/// Extracts the lowercase terms of one line of text, in order of
/// occurrence, using an already compiled pattern.
pub fn tokenize_line_with(tokenizer: &WordTokenizer, line: &str) -> (r: Vec<String>)
    ensures
        r.deep_view() == tokens_of(line@),
{
    let raw = tokenizer.find_raw(line);
    let mut r: Vec<String> = Vec::new();
    let mut i: usize = 0;
    while i < raw.len()
        invariant
            i <= raw.len(),
            raw.deep_view() == raw_tokens_of(line@),
            r.deep_view() =~= tokens_of(line@).take(i as int),
        decreases raw.len() - i,
    {
        let w = lowercase(raw[i].as_str());
        proof {
            assert(raw.deep_view()[i as int] == raw@[i as int]@);
            assert(w@ == lower_of(raw_tokens_of(line@)[i as int]));
            assert(w@ == tokens_of(line@)[i as int]);
        }
        let ghost dv0 = r.deep_view();
        let ghost r0 = r@;
        let ghost wv = w@;
        r.push(w);
        proof {
            assert(r@ == r0.push(r@[r0.len() as int]));
            assert(r.deep_view() =~= dv0.push(wv));
            assert(dv0.push(wv) =~= tokens_of(line@).take(i as int + 1));
        }
        i += 1;
    }
    assert(r.deep_view() =~= tokens_of(line@));
    r
}

/// Extracts the lowercase terms of one line of text, in order of
/// occurrence.
pub fn tokenize_line(line: &str) -> (r: Vec<String>)
    ensures
        r.deep_view() == tokens_of(line@),
{
    let tokenizer = WordTokenizer::new();
    tokenize_line_with(&tokenizer, line)
}

/// Extracts the lowercase terms of a document given as its lines, in
/// reading order, using an already compiled pattern.
pub fn tokenize_lines_with(tokenizer: &WordTokenizer, lines: &Vec<String>) -> (r: Vec<String>)
    ensures
        r.deep_view() == words_of_lines(lines.deep_view()),
{
    let mut r: Vec<String> = Vec::new();
    let mut i: usize = 0;
    while i < lines.len()
        invariant
            i <= lines.len(),
            r.deep_view() =~= words_of_lines(lines.deep_view().take(i as int)),
        decreases lines.len() - i,
    {
        let mut toks = tokenize_line_with(tokenizer, lines[i].as_str());
        let ghost prev = r.deep_view();
        let ghost tv = toks.deep_view();
        r.append(&mut toks);
        proof {
            assert(r.deep_view() =~= prev + tv);
            lemma_words_of_lines_push(
                lines.deep_view().take(i as int),
                lines.deep_view()[i as int],
            );
            assert(lines.deep_view().take(i as int).push(lines.deep_view()[i as int])
                =~= lines.deep_view().take(i + 1));
            assert(r.deep_view() =~= words_of_lines(lines.deep_view().take(i + 1)));
        }
        i += 1;
    }
    assert(lines.deep_view().take(lines.len() as int) =~= lines.deep_view());
    r
}

/// Extracts the lowercase terms of a document given as its lines, in
/// reading order.
pub fn tokenize_lines(lines: &Vec<String>) -> (r: Vec<String>)
    ensures
        r.deep_view() == words_of_lines(lines.deep_view()),
{
    let tokenizer = WordTokenizer::new();
    tokenize_lines_with(&tokenizer, lines)
}

} // verus!
