//! Turns text into ranked words: pattern matches are capped, filtered,
//! counted with case folded to each word's most frequent spelling, ranked
//! by count, and optionally repeated with decaying weight.
use vstd::prelude::*;
use regex::Regex;

verus! {

#[verifier::external_type_specification]
#[verifier::external_body]
pub struct ExRegex(Regex);

#[verifier::external_type_specification]
#[verifier::external_body]
pub struct ExRegexError(regex::Error);

/// What `str::to_lowercase` makes of a string.
pub uninterp spec fn lower_of(s: Seq<char>) -> Seq<char>;

/// What `char::is_numeric` says of a character.
pub uninterp spec fn numeric_char(c: char) -> bool;

/// Relies on `str::to_lowercase`: the result depends on the characters alone.
#[verifier::external_body]
fn lowercase(s: &str) -> (r: String)
    ensures
        r@ == lower_of(s@),
{
    s.to_lowercase()
}

/// Relies on `char::is_numeric`: the result depends on the character alone.
#[verifier::external_body]
fn is_numeric(c: char) -> (r: bool)
    ensures
        r == numeric_char(c),
{
    c.is_numeric()
}

/// Whether `regex::Regex::new` accepts a pattern (with its default limits).
pub uninterp spec fn compiles(pattern: Seq<char>) -> bool;

/// The successive non-overlapping matches of a regex in a text, as
/// `Regex::find_iter` yields them.
pub uninterp spec fn matches_of(re: Regex, text: Seq<char>) -> Seq<Seq<char>>;

/// The matches in a text of a regex that `Regex::new` built from a pattern,
/// that is, with the default options and limits.
pub uninterp spec fn pattern_matches(pattern: Seq<char>, text: Seq<char>) -> Seq<Seq<char>>;

/// Relies on `regex::Regex::new`: it compiles a pattern with the default
/// options or reports why it cannot, depending on the pattern alone; so what
/// the regex it returns matches depends on the pattern and the text alone.
#[verifier::external_body]
fn compile(pattern: &str) -> (r: Result<Regex, regex::Error>)
    ensures
        r is Ok <==> compiles(pattern@),
        r matches Ok(re) ==> forall|t: Seq<char>| #[trigger] matches_of(re, t) == pattern_matches(pattern@, t),
{
    Regex::new(pattern)
}

/// Relies on `regex::Regex::find_iter`: the successive non-overlapping
/// matches of the regex in the text, each taken as an owned string.
#[verifier::external_body]
fn find_words(re: &Regex, text: &str) -> (r: Vec<String>)
    ensures
        views(r@) == matches_of(*re, text@),
{
    re.find_iter(text).map(|m| m.as_str().to_string()).collect()
}

/// The built-in word pattern: a word character followed by word
/// characters and apostrophes.
pub const WORD_PATTERN: &'static str = "\\w[\\w']*";

/// Common English words left out of word clouds, one per line.
pub const DEFAULT_EXCLUDE_WORDS_TEXT: &'static str = "a\nabout\nabove\nafter\nagain\nagainst\nall\nalso\nam\nan\nand\nany\nare\n\
aren't\nas\nat\nbe\nbecause\nbeen\nbefore\nbeing\nbelow\nbetween\nboth\nbut\n\
by\ncan\ncan't\ncannot\ncom\ncould\ncouldn't\ndid\ndidn't\ndo\ndoes\ndoesn't\n\
doing\ndon't\ndown\nduring\neach\nelse\never\nfew\nfor\nfrom\nfurther\nget\n\
had\nhadn't\nhas\nhasn't\nhave\nhaven't\nhaving\nhe\nhe'd\nhe'll\nhe's\nhence\n\
her\nhere\nhere's\nhers\nherself\nhim\nhimself\nhis\nhow\nhow's\nhowever\nhttp\n\
i\ni'd\ni'll\ni'm\ni've\nif\nin\ninto\nis\nisn't\nit\nit's\nits\nitself\njust\n\
k\nlet's\nlike\nme\nmore\nmost\nmustn't\nmy\nmyself\nno\nnor\nnot\nof\noff\non\n\
once\nonly\nor\nother\notherwise\nought\nour\nours\nourselves\nout\nover\nown\n\
r\nsame\nshall\nshan't\nshe\nshe'd\nshe'll\nshe's\nshould\nshouldn't\nsince\n\
so\nsome\nsuch\nthan\nthat\nthat's\nthe\ntheir\ntheirs\nthem\nthemselves\nthen\n\
there\nthere's\ntherefore\nthese\nthey\nthey'd\nthey'll\nthey're\nthey've\n\
this\nthose\nthrough\nto\ntoo\nunder\nuntil\nup\nvery\nwas\nwasn't\nwe\nwe'd\n\
we'll\nwe're\nwe've\nwere\nweren't\nwhat\nwhat's\nwhen\nwhen's\nwhere\nwhere's\n\
which\nwhile\nwho\nwho's\nwhom\nwhy\nwhy's\nwith\nwon't\nwould\nwouldn't\nwww\n\
you\nyou'd\nyou'll\nyou're\nyou've\nyour\nyours\nyourself\nyourselves\n";

/// The views of a list of strings.
pub open spec fn views(v: Seq<String>) -> Seq<Seq<char>> {
    v.map_values(|s: String| s@)
}

/// Every character of `s` is numeric (an empty string counts as numeric).
pub open spec fn all_numeric(s: Seq<char>) -> bool {
    forall|i: int| 0 <= i < s.len() ==> numeric_char(#[trigger] s[i])
}

/// Length of `s` in UTF-8 bytes, as `str::len` gives it.
pub open spec fn byte_len(s: Seq<char>) -> int {
    vstd::utf8::encode_utf8(s).len() as usize as int
}

/// The matches that the scan takes: the first `max_words` of them, or all
/// when `max_words` is zero.
pub open spec fn scanned(matches: Seq<Seq<char>>, max_words: u32) -> Seq<Seq<char>> {
    if max_words == 0 || matches.len() <= max_words {
        matches
    } else {
        matches.take(max_words as int)
    }
}

/// Splits text into words and ranks them by frequency.
pub struct Tokenizer {
    /// The word pattern; `None` only when the built-in one failed to compile.
    pub regex: Option<Regex>,
    /// Stop words, lowercased.
    pub filter: Vec<String>,
    pub min_word_length: u32,
    pub exclude_numbers: bool,
    pub max_words: u32,
    pub repeat: bool,
}

impl Tokenizer {
    /// The lowercased stop words.
    pub open spec fn stop_words(&self) -> Seq<Seq<char>> {
        views(self.filter@)
    }

    /// A scanned word survives the filters: it is no stop word (compared
    /// in lower case), it is long enough, and it is not all digits when
    /// numbers are excluded.
    pub open spec fn keeps(&self, t: Seq<char>) -> bool {
        &&& !self.stop_words().contains(lower_of(t))
        &&& (self.min_word_length == 0 || byte_len(t) >= self.min_word_length)
        &&& !(self.exclude_numbers && all_numeric(t))
    }

    /// The words that survive the filters, in scan order.
    pub open spec fn kept(&self, ts: Seq<Seq<char>>) -> Seq<Seq<char>>
        decreases ts.len(),
    {
        if ts.len() == 0 {
            ts
        } else {
            let rest = self.kept(ts.drop_last());
            if self.keeps(ts.last()) {
                rest.push(ts.last())
            } else {
                rest
            }
        }
    }

    /// The words that a scan of these matches hands on to counting.
    pub open spec fn words_of(&self, matches: Seq<Seq<char>>) -> Seq<Seq<char>> {
        self.kept(scanned(matches, self.max_words))
    }
}

impl Default for Tokenizer {
    fn default() -> (r: Self)
        ensures
            r.stop_words().len() == 0,
            r.min_word_length == 0,
            r.exclude_numbers,
            r.max_words == 200,
            !r.repeat,
            r.regex is Some <==> compiles(WORD_PATTERN@),
            r.regex matches Some(re) ==> forall|t: Seq<char>| #[trigger] matches_of(re, t) == pattern_matches(WORD_PATTERN@, t),
    {
        let regex = match compile(WORD_PATTERN) {
            Ok(re) => Some(re),
            Err(_) => None,
        };
        Tokenizer {
            regex,
            filter: Vec::new(),
            min_word_length: 0,
            exclude_numbers: true,
            max_words: 200,
            repeat: false,
        }
    }
}

fn is_all_numeric(s: &str) -> (r: bool)
    ensures
        r == all_numeric(s@),
{
    let mut all = true;
    for c in it: s.chars()
        invariant
            it.seq() == s@,
            all == forall|i: int| 0 <= i < it.index() ==> numeric_char(#[trigger] s@[i]),
    {
        all = all && is_numeric(c);
    }
    all
}

impl Tokenizer {
    fn is_stop_word(&self, lower: &String) -> (r: bool)
        ensures
            r == self.stop_words().contains(lower@),
    {
        let mut k: usize = 0;
        while k < self.filter.len()
            invariant
                k <= self.filter@.len(),
                forall|i: int| 0 <= i < k ==> self.filter@[i]@ != lower@,
            decreases self.filter@.len() - k,
        {
            if self.filter[k] == *lower {
                assert(self.stop_words()[k as int] == lower@);
                return true;
            }
            k += 1;
        }
        proof {
            if self.stop_words().contains(lower@) {
                let i = choose|i: int| 0 <= i < self.stop_words().len() && self.stop_words()[i] == lower@;
                assert(self.filter@[i]@ == lower@);
            }
        }
        false
    }

    fn keeps_word(&self, word: &String) -> (r: bool)
        ensures
            r == self.keeps(word@),
    {
        let lower = lowercase(word.as_str());
        if self.is_stop_word(&lower) {
            return false;
        }
        if self.min_word_length > 0 && word.as_str().len() < self.min_word_length as usize {
            return false;
        }
        if self.exclude_numbers && is_all_numeric(word.as_str()) {
            return false;
        }
        true
    }

    /// The matches that counting takes, in order: the first `max_words`
    /// (all when it is zero), less stop words, words shorter than
    /// `min_word_length` bytes and, when numbers are excluded, words of
    /// digits only.
    pub fn filter_tokens(&self, matches: &Vec<String>) -> (r: Vec<String>)
        ensures
            views(r@) == self.words_of(views(matches@)),
    {
        let n = matches.len();
        let limit: usize = if self.max_words == 0 || n <= self.max_words as usize {
            n
        } else {
            self.max_words as usize
        };
        let ghost ms = views(matches@);
        assert(scanned(ms, self.max_words) =~= ms.take(limit as int));
        let mut r: Vec<String> = Vec::new();
        let mut i: usize = 0;
        while i < limit
            invariant
                limit <= n == matches@.len(),
                ms == views(matches@),
                i <= limit,
                views(r@) == self.kept(ms.take(i as int)),
            decreases limit - i,
        {
            let ghost before = r@;
            assert(ms.take(i as int + 1).drop_last() =~= ms.take(i as int));
            if self.keeps_word(&matches[i]) {
                r.push(matches[i].clone());
                assert(views(r@) =~= views(before).push(matches@[i as int]@));
            }
            i += 1;
        }
        r
    }

    /// Replaces the word pattern.
    pub fn with_regex(self, value: Regex) -> (r: Self)
        ensures
            r.filter == self.filter,
            r.min_word_length == self.min_word_length,
            r.exclude_numbers == self.exclude_numbers,
            r.max_words == self.max_words,
            r.repeat == self.repeat,
            r.regex == Some(value),
    {
        Tokenizer { regex: Some(value), ..self }
    }

    /// Replaces the stop words with these, lowercased.
    pub fn with_filter(self, value: Vec<&str>) -> (r: Self)
        ensures
            r.stop_words() == value@.map_values(|w: &str| lower_of(w@)),
            r.regex == self.regex,
            r.min_word_length == self.min_word_length,
            r.exclude_numbers == self.exclude_numbers,
            r.max_words == self.max_words,
            r.repeat == self.repeat,
    {
        let mut filter: Vec<String> = Vec::new();
        let mut i: usize = 0;
        while i < value.len()
            invariant
                i <= value@.len(),
                views(filter@) =~= value@.take(i as int).map_values(|w: &str| lower_of(w@)),
            decreases value@.len() - i,
        {
            let ghost before = filter@;
            let lower = lowercase(value[i]);
            filter.push(lower);
            assert(views(filter@) =~= views(before).push(lower_of(value@[i as int]@)));
            assert(value@.take(i as int + 1) =~= value@.take(i as int).push(value@[i as int]));
            i += 1;
        }
        assert(value@.take(value@.len() as int) =~= value@);
        Tokenizer { filter, ..self }
    }

    pub fn with_min_word_length(self, value: u32) -> (r: Self)
        ensures
            r.min_word_length == value,
            r.regex == self.regex,
            r.filter == self.filter,
            r.exclude_numbers == self.exclude_numbers,
            r.max_words == self.max_words,
            r.repeat == self.repeat,
    {
        Tokenizer { min_word_length: value, ..self }
    }

    pub fn with_exclude_numbers(self, value: bool) -> (r: Self)
        ensures
            r.exclude_numbers == value,
            r.regex == self.regex,
            r.filter == self.filter,
            r.min_word_length == self.min_word_length,
            r.max_words == self.max_words,
            r.repeat == self.repeat,
    {
        Tokenizer { exclude_numbers: value, ..self }
    }

    pub fn with_max_words(self, value: u32) -> (r: Self)
        ensures
            r.max_words == value,
            r.regex == self.regex,
            r.filter == self.filter,
            r.min_word_length == self.min_word_length,
            r.exclude_numbers == self.exclude_numbers,
            r.repeat == self.repeat,
    {
        Tokenizer { max_words: value, ..self }
    }

    pub fn with_repeat(self, value: bool) -> (r: Self)
        ensures
            r.repeat == value,
            r.regex == self.regex,
            r.filter == self.filter,
            r.min_word_length == self.min_word_length,
            r.exclude_numbers == self.exclude_numbers,
            r.max_words == self.max_words,
    {
        Tokenizer { repeat: value, ..self }
    }
}

/// How many times `t` occurs in `ks`.
pub open spec fn occurrences(ks: Seq<Seq<char>>, t: Seq<char>) -> nat
    decreases ks.len(),
{
    if ks.len() == 0 {
        0
    } else {
        occurrences(ks.drop_last(), t) + if ks.last() == t { 1nat } else { 0nat }
    }
}

/// How many words of `ks` lowercase to `l`.
pub open spec fn folded_count(ks: Seq<Seq<char>>, l: Seq<char>) -> nat
    decreases ks.len(),
{
    if ks.len() == 0 {
        0
    } else {
        folded_count(ks.drop_last(), l) + if lower_of(ks.last()) == l { 1nat } else { 0nat }
    }
}

/// Lexicographic order on characters (the order of `str`'s bytes).
pub open spec fn word_lt(a: Seq<char>, b: Seq<char>) -> bool
    decreases a.len(),
{
    if a.len() == 0 {
        b.len() > 0
    } else if b.len() == 0 {
        false
    } else if a[0] != b[0] {
        (a[0] as u32) < (b[0] as u32)
    } else {
        word_lt(a.drop_first(), b.drop_first())
    }
}

/// `c` is the spelling kept for its case cluster in `ks`: it occurs, and
/// every spelling that lowercases alike occurs less often, or as often and
/// not after it.
pub open spec fn is_canonical(ks: Seq<Seq<char>>, c: Seq<char>) -> bool {
    &&& occurrences(ks, c) > 0
    &&& forall|u: Seq<char>|
        #![trigger occurrences(ks, u)]
        occurrences(ks, u) > 0 && lower_of(u) == lower_of(c) ==> occurrences(ks, u) < occurrences(ks, c) || (
        occurrences(ks, u) == occurrences(ks, c) && !word_lt(c, u))
}

/// `r` holds one entry per case cluster of `ks`: its canonical spelling
/// and the number of words in the cluster.
pub open spec fn is_folded_count(ks: Seq<Seq<char>>, r: Seq<(String, usize)>) -> bool {
    &&& forall|i: int|
        0 <= i < r.len() ==> is_canonical(ks, (#[trigger] r[i]).0@) && r[i].1 == folded_count(
            ks,
            lower_of(r[i].0@),
        )
    &&& forall|i: int, j: int|
        0 <= i < r.len() && 0 <= j < r.len() && i != j ==> lower_of((#[trigger] r[i]).0@) != lower_of(
            (#[trigger] r[j]).0@,
        )
    &&& forall|t: Seq<char>|
        occurrences(ks, t) > 0 ==> exists|i: int| 0 <= i < r.len() && lower_of((#[trigger] r[i]).0@) == lower_of(t)
}

/// Exact counts: one entry per distinct word of `ks`, with its count.
pub open spec fn is_exact_count(ks: Seq<Seq<char>>, v: Seq<(String, usize)>) -> bool {
    &&& forall|k: int| 0 <= k < v.len() ==> (#[trigger] v[k]).1 == occurrences(ks, v[k].0@) && v[k].1 > 0
    &&& forall|k: int, m: int| 0 <= k < v.len() && 0 <= m < v.len() && k != m ==> (#[trigger] v[k]).0@ != (#[trigger] v[m]).0@
    &&& forall|t: Seq<char>| occurrences(ks, t) > 0 ==> exists|k: int| 0 <= k < v.len() && (#[trigger] v[k]).0@ == t
}

/// Folded totals: one entry per distinct lowercase form of `ks`.
pub open spec fn is_lower_count(ks: Seq<Seq<char>>, g: Seq<(String, usize)>) -> bool {
    &&& forall|k: int| 0 <= k < g.len() ==> (#[trigger] g[k]).1 == folded_count(ks, g[k].0@) && g[k].1 > 0
    &&& forall|k: int, m: int| 0 <= k < g.len() && 0 <= m < g.len() && k != m ==> (#[trigger] g[k]).0@ != (#[trigger] g[m]).0@
    &&& forall|t: Seq<char>| occurrences(ks, t) > 0 ==> exists|k: int| 0 <= k < g.len() && (#[trigger] g[k]).0@ == lower_of(t)
}

proof fn lemma_counts_bounded(ks: Seq<Seq<char>>, t: Seq<char>, l: Seq<char>)
    ensures
        occurrences(ks, t) <= ks.len(),
        folded_count(ks, l) <= ks.len(),
        occurrences(ks, t) > 0 ==> folded_count(ks, lower_of(t)) > 0,
    decreases ks.len(),
{
    if ks.len() > 0 {
        lemma_counts_bounded(ks.drop_last(), t, l);
        lemma_counts_bounded(ks.drop_last(), t, lower_of(t));
    }
}

proof fn lemma_word_lt_transitive(a: Seq<char>, b: Seq<char>, c: Seq<char>)
    requires
        word_lt(a, b),
        word_lt(b, c),
    ensures
        word_lt(a, c),
    decreases a.len(),
{
    if a.len() > 0 && b.len() > 0 && c.len() > 0 && a[0] == b[0] && b[0] == c[0] {
        lemma_word_lt_transitive(a.drop_first(), b.drop_first(), c.drop_first());
    }
}

proof fn lemma_word_lt_total(a: Seq<char>, b: Seq<char>)
    ensures
        a != b ==> word_lt(a, b) || word_lt(b, a),
        !(word_lt(a, b) && word_lt(b, a)),
        !word_lt(a, a),
    decreases a.len(),
{
    if a.len() > 0 {
        lemma_word_lt_total(a.drop_first(), a.drop_first());
    }
    if a.len() > 0 && b.len() > 0 {
        lemma_word_lt_total(a.drop_first(), b.drop_first());
        if a[0] == b[0] && a != b {
            assert(a =~= seq![a[0]] + a.drop_first());
            assert(b =~= seq![b[0]] + b.drop_first());
        }
        if a[0] != b[0] {
            assert((a[0] as u32) != (b[0] as u32)) by {
                vstd::utf8::char_u32_cast(a[0], a[0] as u32);
                vstd::utf8::char_u32_cast(b[0], b[0] as u32);
            }
        }
    } else if a.len() == 0 && b.len() == 0 {
        assert(a =~= b);
    }
}

fn chars_of(s: &str) -> (r: Vec<char>)
    ensures
        r@ == s@,
{
    let mut r: Vec<char> = Vec::new();
    for c in it: s.chars()
        invariant
            it.seq() == s@,
            r@ == s@.take(it.index() as int),
    {
        assert(s@.take(it.index() as int + 1) =~= s@.take(it.index() as int).push(c));
        r.push(c);
    }
    assert(s@.take(s@.len() as int) =~= s@);
    r
}

fn word_less(a: &Vec<char>, b: &Vec<char>) -> (r: bool)
    ensures
        r == word_lt(a@, b@),
{
    let mut i: usize = 0;
    assert(a@.skip(0) =~= a@ && b@.skip(0) =~= b@);
    while i < a.len() && i < b.len()
        invariant
            i <= a@.len(),
            i <= b@.len(),
            a@.take(i as int) == b@.take(i as int),
            word_lt(a@, b@) == word_lt(a@.skip(i as int), b@.skip(i as int)),
        decreases a@.len() - i,
    {
        if a[i] != b[i] {
            return (a[i] as u32) < (b[i] as u32);
        }
        assert(a@.skip(i as int).drop_first() =~= a@.skip(i as int + 1));
        assert(b@.skip(i as int).drop_first() =~= b@.skip(i as int + 1));
        assert(a@.take(i as int + 1) =~= a@.take(i as int).push(a@[i as int]));
        assert(b@.take(i as int + 1) =~= b@.take(i as int).push(b@[i as int]));
        i += 1;
    }
    i < b.len()
}

fn find_entry(v: &Vec<(String, usize)>, w: &String) -> (r: Option<usize>)
    ensures
        r matches Some(k) ==> k < v@.len() && v@[k as int].0@ == w@,
        r is None ==> forall|k: int| 0 <= k < v@.len() ==> (#[trigger] v@[k]).0@ != w@,
{
    let mut k: usize = 0;
    while k < v.len()
        invariant
            k <= v@.len(),
            forall|m: int| 0 <= m < k ==> (#[trigger] v@[m]).0@ != w@,
        decreases v@.len() - k,
    {
        if v[k].0 == *w {
            return Some(k);
        }
        k += 1;
    }
    None
}

/// Adds one occurrence of `w` to the counts.
fn bump(v: &mut Vec<(String, usize)>, w: &String)
    requires
        forall|k: int, m: int| 0 <= k < old(v)@.len() && 0 <= m < old(v)@.len() && k != m ==> (#[trigger] old(v)@[k]).0@ != (#[trigger] old(v)@[m]).0@,
        forall|k: int| 0 <= k < old(v)@.len() ==> (#[trigger] old(v)@[k]).1 < usize::MAX,
    ensures
        final(v)@.len() >= old(v)@.len(),
        forall|k: int| 0 <= k < old(v)@.len() ==> (#[trigger] final(v)@[k]).0@ == old(v)@[k].0@,
        forall|k: int| 0 <= k < old(v)@.len() ==> (#[trigger] final(v)@[k]).1 == old(v)@[k].1 + if old(v)@[k].0@ == w@ { 1int } else { 0int },
        forall|k: int| old(v)@.len() <= k < final(v)@.len() ==> (#[trigger] final(v)@[k]).0@ == w@ && final(v)@[k].1 == 1,
        final(v)@.len() == old(v)@.len() + if exists|k: int| 0 <= k < old(v)@.len() && (#[trigger] old(v)@[k]).0@ == w@ { 0int } else { 1int },
        forall|k: int, m: int| 0 <= k < final(v)@.len() && 0 <= m < final(v)@.len() && k != m ==> (#[trigger] final(v)@[k]).0@ != (#[trigger] final(v)@[m]).0@,
{
    match find_entry(v, w) {
        Some(k) => {
            let (word, count) = (v[k].0.clone(), v[k].1);
            v.set(k, (word, count + 1));
        },
        None => {
            v.push((w.clone(), 1));
        },
    }
}

proof fn lemma_counts_push(ks: Seq<Seq<char>>, t: Seq<char>, u: Seq<char>, l: Seq<char>)
    ensures
        occurrences(ks.push(t), u) == occurrences(ks, u) + if t == u { 1nat } else { 0nat },
        folded_count(ks.push(t), l) == folded_count(ks, l) + if lower_of(t) == l { 1nat } else { 0nat },
{
    assert(ks.push(t).drop_last() =~= ks);
}

/// Counts the words of `ks` exactly and by lowercase form.
fn count_words(ks: &Vec<String>) -> (r: (Vec<(String, usize)>, Vec<(String, usize)>))
    ensures
        is_exact_count(views(ks@), r.0@),
        is_lower_count(views(ks@), r.1@),
{
    let ghost all = views(ks@);
    let mut exact: Vec<(String, usize)> = Vec::new();
    let mut lowers: Vec<(String, usize)> = Vec::new();
    let mut i: usize = 0;
    while i < ks.len()
        invariant
            all == views(ks@),
            i <= ks@.len(),
            is_exact_count(all.take(i as int), exact@),
            is_lower_count(all.take(i as int), lowers@),
        decreases ks@.len() - i,
    {
        let ghost p = all.take(i as int);
        let ghost t = ks@[i as int]@;
        let ghost e0 = exact@;
        let ghost g0 = lowers@;
        assert(all.take(i as int + 1) =~= p.push(t));
        proof {
            assert forall|k: int| 0 <= k < e0.len() implies (#[trigger] e0[k]).1 < usize::MAX by {
                lemma_counts_bounded(p, e0[k].0@, e0[k].0@);
            }
            assert forall|k: int| 0 <= k < g0.len() implies (#[trigger] g0[k]).1 < usize::MAX by {
                lemma_counts_bounded(p, g0[k].0@, g0[k].0@);
            }
        }
        bump(&mut exact, &ks[i]);
        let lower = lowercase(ks[i].as_str());
        bump(&mut lowers, &lower);
        proof {
            let q = p.push(t);
            assert forall|k: int| 0 <= k < exact@.len() implies (#[trigger] exact@[k]).1 == occurrences(q, exact@[k].0@) && exact@[k].1 > 0 by {
                lemma_counts_push(p, t, exact@[k].0@, t);
                if k >= e0.len() {
                    if occurrences(p, t) > 0 {
                        let m = choose|m: int| 0 <= m < e0.len() && (#[trigger] e0[m]).0@ == t;
                    }
                }
            }
            assert forall|u: Seq<char>| occurrences(q, u) > 0 implies exists|k: int| 0 <= k < exact@.len() && (#[trigger] exact@[k]).0@ == u by {
                lemma_counts_push(p, t, u, t);
                if u == t {
                    if exists|m: int| 0 <= m < e0.len() && (#[trigger] e0[m]).0@ == t {
                        let m = choose|m: int| 0 <= m < e0.len() && (#[trigger] e0[m]).0@ == t;
                        assert(exact@[m].0@ == u);
                    } else {
                        assert(exact@[e0.len() as int].0@ == u);
                    }
                } else {
                    let m = choose|m: int| 0 <= m < e0.len() && (#[trigger] e0[m]).0@ == u;
                    assert(exact@[m].0@ == u);
                }
            }
            assert forall|k: int| 0 <= k < lowers@.len() implies (#[trigger] lowers@[k]).1 == folded_count(q, lowers@[k].0@) && lowers@[k].1 > 0 by {
                lemma_counts_push(p, t, t, lowers@[k].0@);
                if k >= g0.len() {
                    if folded_count(p, lower_of(t)) > 0 {
                        lemma_folded_witness(p, lower_of(t));
                        let u = choose|u: Seq<char>| occurrences(p, u) > 0 && lower_of(u) == lower_of(t);
                        let m = choose|m: int| 0 <= m < g0.len() && (#[trigger] g0[m]).0@ == lower_of(u);
                    }
                }
            }
            assert forall|u: Seq<char>| occurrences(q, u) > 0 implies exists|k: int| 0 <= k < lowers@.len() && (#[trigger] lowers@[k]).0@ == lower_of(u) by {
                lemma_counts_push(p, t, u, t);
                if u == t {
                    if exists|m: int| 0 <= m < g0.len() && (#[trigger] g0[m]).0@ == lower_of(t) {
                        let m = choose|m: int| 0 <= m < g0.len() && (#[trigger] g0[m]).0@ == lower_of(t);
                        assert(lowers@[m].0@ == lower_of(u));
                    } else {
                        assert(lowers@[g0.len() as int].0@ == lower_of(u));
                    }
                } else {
                    let m = choose|m: int| 0 <= m < g0.len() && (#[trigger] g0[m]).0@ == lower_of(u);
                    assert(lowers@[m].0@ == lower_of(u));
                }
            }
        }
        i += 1;
    }
    assert(all.take(ks@.len() as int) =~= all);
    (exact, lowers)
}

proof fn lemma_folded_witness(ks: Seq<Seq<char>>, l: Seq<char>)
    requires
        folded_count(ks, l) > 0,
    ensures
        exists|u: Seq<char>| occurrences(ks, u) > 0 && lower_of(u) == l,
    decreases ks.len(),
{
    if lower_of(ks.last()) == l {
        assert(occurrences(ks, ks.last()) > 0);
    } else {
        lemma_folded_witness(ks.drop_last(), l);
        let u = choose|u: Seq<char>| occurrences(ks.drop_last(), u) > 0 && lower_of(u) == l;
        assert(occurrences(ks, u) > 0);
    }
}

/// `b` ranks at least as high as `m` as a spelling: more frequent, or as
/// frequent and not before it.
pub open spec fn outranks(b: (String, usize), m: (String, usize)) -> bool {
    m.1 < b.1 || (m.1 == b.1 && !word_lt(b.0@, m.0@))
}

/// For each lowercase form, its most frequent spelling (the greatest on a
/// tie) together with the form's total count.
fn pick_common_case(exact: &Vec<(String, usize)>, lowers: &Vec<(String, usize)>, ks: Ghost<Seq<Seq<char>>>) -> (r: Vec<(String, usize)>)
    requires
        is_exact_count(ks@, exact@),
        is_lower_count(ks@, lowers@),
    ensures
        is_folded_count(ks@, r@),
        r@.len() == lowers@.len(),
        forall|g: int| 0 <= g < r@.len() ==> (#[trigger] r@[g]).1 == lowers@[g].1,
{
    let ghost ks = ks@;
    let mut r: Vec<(String, usize)> = Vec::new();
    let mut g: usize = 0;
    while g < lowers.len()
        invariant
            is_exact_count(ks, exact@),
            is_lower_count(ks, lowers@),
            g <= lowers@.len(),
            r@.len() == g,
            forall|j: int| 0 <= j < g ==> (#[trigger] r@[j]).1 == lowers@[j].1 && lower_of(r@[j].0@) == lowers@[j].0@
                && is_canonical(ks, r@[j].0@),
        decreases lowers@.len() - g,
    {
        let ghost l = lowers@[g as int].0@;
        let mut best: Option<usize> = None;
        let mut best_chars: Vec<char> = Vec::new();
        let mut k: usize = 0;
        while k < exact.len()
            invariant
                is_exact_count(ks, exact@),
                l == lowers@[g as int].0@,
                g < lowers@.len(),
                k <= exact@.len(),
                best matches Some(b) ==> b < k && lower_of(exact@[b as int].0@) == l && best_chars@ == exact@[b as int].0@
                    && forall|m: int| 0 <= m < k && lower_of(exact@[m].0@) == l ==> outranks(exact@[b as int], #[trigger] exact@[m]),
                best is None ==> forall|m: int| 0 <= m < k ==> lower_of((#[trigger] exact@[m]).0@) != l,
            decreases exact@.len() - k,
        {
            let lower = lowercase(exact[k].0.as_str());
            if lower == lowers[g].0 {
                let chars = chars_of(exact[k].0.as_str());
                let take = match best {
                    None => true,
                    Some(b) => exact[k].1 > exact[b].1 || (exact[k].1 == exact[b].1 && word_less(&best_chars, &chars)),
                };
                proof {
                    lemma_word_lt_total(exact@[k as int].0@, exact@[k as int].0@);
                    if let Some(b) = best {
                        let bb = exact@[b as int];
                        let c = exact@[k as int];
                        if take {
                            assert forall|m: int| 0 <= m < k && lower_of(exact@[m].0@) == l implies outranks(c, #[trigger] exact@[m]) by {
                                let mm = exact@[m];
                                assert(outranks(bb, mm));
                                if mm.1 == c.1 && word_lt(c.0@, mm.0@) {
                                    lemma_word_lt_transitive(bb.0@, c.0@, mm.0@);
                                }
                            }
                        }
                    }
                }
                if take {
                    best = Some(k);
                    best_chars = chars;
                }
            }
            k += 1;
        }
        proof {
            lemma_folded_witness(ks, l);
            let u = choose|u: Seq<char>| occurrences(ks, u) > 0 && lower_of(u) == l;
            let m = choose|m: int| 0 <= m < exact@.len() && (#[trigger] exact@[m]).0@ == u;
        }
        let b = match best {
            Some(b) => b,
            None => {
                proof {
                    let u = choose|u: Seq<char>| occurrences(ks, u) > 0 && lower_of(u) == l;
                    let m = choose|m: int| 0 <= m < exact@.len() && (#[trigger] exact@[m]).0@ == u;
                    assert(lower_of(exact@[m].0@) == l);
                }
                0
            },
        };
        proof {
            let c = exact@[b as int].0@;
            assert forall|u: Seq<char>| #![trigger occurrences(ks, u)] occurrences(ks, u) > 0 && lower_of(u) == lower_of(c) implies occurrences(ks, u) < occurrences(ks, c) || (
                occurrences(ks, u) == occurrences(ks, c) && !word_lt(c, u)) by {
                let m = choose|m: int| 0 <= m < exact@.len() && (#[trigger] exact@[m]).0@ == u;
                assert(outranks(exact@[b as int], exact@[m]));
            }
        }
        r.push((exact[b].0.clone(), lowers[g].1));
        g += 1;
    }
    proof {
        assert forall|i: int, j: int| 0 <= i < r@.len() && 0 <= j < r@.len() && i != j implies lower_of((#[trigger] r@[i]).0@) != lower_of(
            (#[trigger] r@[j]).0@) by {
            assert(lowers@[i].0@ != lowers@[j].0@);
        }
        assert forall|t: Seq<char>| occurrences(ks, t) > 0 implies exists|i: int| 0 <= i < r@.len() && lower_of((#[trigger] r@[i]).0@) == lower_of(t) by {
            let m = choose|m: int| 0 <= m < lowers@.len() && (#[trigger] lowers@[m]).0@ == lower_of(t);
            assert(lower_of(r@[m].0@) == lower_of(t));
        }
    }
    r
}

/// `a` comes before `b` in the ranking: a higher count, or the same count
/// and an earlier word.
pub open spec fn ranks_before(a: (String, usize), b: (String, usize)) -> bool {
    a.1 > b.1 || (a.1 == b.1 && word_lt(a.0@, b.0@))
}

/// Every entry of `r` comes before every later one.
pub open spec fn is_ranked(r: Seq<(String, usize)>) -> bool {
    forall|i: int, j: int| 0 <= i < j < r.len() ==> ranks_before(#[trigger] r[i], #[trigger] r[j])
}

/// The largest count of `r`, zero when it is empty.
pub open spec fn max_count(r: Seq<(String, usize)>) -> nat
    decreases r.len(),
{
    if r.len() == 0 {
        0
    } else {
        let m = max_count(r.drop_last());
        if r.last().1 > m {
            r.last().1 as nat
        } else {
            m
        }
    }
}

proof fn lemma_max_count(r: Seq<(String, usize)>)
    ensures
        forall|i: int| 0 <= i < r.len() ==> (#[trigger] r[i]).1 <= max_count(r),
        r.len() > 0 ==> exists|i: int| 0 <= i < r.len() && (#[trigger] r[i]).1 == max_count(r),
        max_count(r) <= usize::MAX,
    decreases r.len(),
{
    if r.len() > 0 {
        lemma_max_count(r.drop_last());
        assert forall|i: int| 0 <= i < r.len() implies (#[trigger] r[i]).1 <= max_count(r) by {
            if i < r.len() - 1 {
                assert(r[i] == r.drop_last()[i]);
            }
        }
        if r.last().1 <= max_count(r.drop_last()) && r.len() > 1 {
            let i = choose|i: int| 0 <= i < r.drop_last().len() && (#[trigger] r.drop_last()[i]).1 == max_count(r.drop_last());
            assert(r[i] == r.drop_last()[i]);
        } else {
            assert(r[r.len() - 1].1 == max_count(r));
        }
    }
}

fn largest_count(r: &Vec<(String, usize)>) -> (m: usize)
    ensures
        m == max_count(r@),
{
    let mut m: usize = 0;
    let mut i: usize = 0;
    while i < r.len()
        invariant
            i <= r@.len(),
            m == max_count(r@.take(i as int)),
        decreases r@.len() - i,
    {
        assert(r@.take(i as int + 1).drop_last() =~= r@.take(i as int));
        if r[i].1 > m {
            m = r[i].1;
        }
        i += 1;
    }
    assert(r@.take(r@.len() as int) =~= r@);
    m
}

proof fn lemma_insert_ranked(r0: Seq<(String, usize)>, x: (String, usize), pos: int)
    requires
        0 <= pos <= r0.len(),
        is_ranked(r0),
        forall|k: int| 0 <= k < pos ==> ranks_before(#[trigger] r0[k], x),
        forall|k: int| pos <= k < r0.len() ==> ranks_before(x, #[trigger] r0[k]),
    ensures
        is_ranked(r0.insert(pos, x)),
{
    let r = r0.insert(pos, x);
    assert forall|a: int, b: int| 0 <= a < b < r.len() implies ranks_before(#[trigger] r[a], #[trigger] r[b]) by {
        if a < pos && b > pos {
            let ra = r0[a];
            let rb = r0[b - 1];
            assert(ranks_before(ra, x));
            assert(ranks_before(x, rb));
            if ra.1 == x.1 && x.1 == rb.1 {
                lemma_word_lt_transitive(ra.0@, x.0@, rb.0@);
            }
        } else if a > pos {
            assert(r[a] == r0[a - 1] && r[b] == r0[b - 1]);
        } else if b < pos {
            assert(r[a] == r0[a] && r[b] == r0[b]);
        } else if a == pos {
            assert(r[b] == r0[b - 1]);
        } else {
            assert(r[a] == r0[a]);
        }
    }
}

/// The entries of `v` in ranking order.
fn rank(v: &Vec<(String, usize)>) -> (r: Vec<(String, usize)>)
    requires
        forall|i: int, j: int| 0 <= i < v@.len() && 0 <= j < v@.len() && i != j ==> (#[trigger] v@[i]).0@ != (#[trigger] v@[j]).0@,
    ensures
        is_ranked(r@),
        r@.len() == v@.len(),
        r@.to_multiset() == v@.to_multiset(),
{
    let mut r: Vec<(String, usize)> = Vec::new();
    let mut i: usize = 0;
    proof {
        assert(v@.take(0) =~= Seq::<(String, usize)>::empty());
        assert(r@ =~= Seq::<(String, usize)>::empty());
        vstd::seq_lib::to_multiset_len(r@);
        vstd::seq_lib::to_multiset_len(v@.take(0));
        assert(r@.to_multiset() =~= v@.take(0).to_multiset());
    }
    while i < v.len()
        invariant
            i <= v@.len(),
            forall|a: int, b: int| 0 <= a < v@.len() && 0 <= b < v@.len() && a != b ==> (#[trigger] v@[a]).0@ != (#[trigger] v@[b]).0@,
            is_ranked(r@),
            r@.len() == i,
            r@.to_multiset() == v@.take(i as int).to_multiset(),
        decreases v@.len() - i,
    {
        let x = (v[i].0.clone(), v[i].1);
        assert(x == v@[i as int]);
        let xc = chars_of(x.0.as_str());
        let mut pos: usize = 0;
        let mut found = false;
        while pos < r.len() && !found
            invariant
                pos <= r@.len(),
                xc@ == x.0@,
                i < v@.len(),
                x == v@[i as int],
                forall|a: int, b: int| 0 <= a < v@.len() && 0 <= b < v@.len() && a != b ==> (#[trigger] v@[a]).0@ != (#[trigger] v@[b]).0@,
                is_ranked(r@),
                r@.len() == i,
                r@.to_multiset() == v@.take(i as int).to_multiset(),
                found ==> pos < r@.len() && ranks_before(x, r@[pos as int]),
                forall|k: int| 0 <= k < pos ==> !ranks_before(x, #[trigger] r@[k]),
            decreases r@.len() - pos + if found { 0int } else { 1int },
        {
            let rc = chars_of(r[pos].0.as_str());
            if x.1 > r[pos].1 || (x.1 == r[pos].1 && word_less(&xc, &rc)) {
                found = true;
            } else {
                pos += 1;
            }
        }
        let ghost r0 = r@;
        proof {
            assert forall|k: int| 0 <= k < pos implies ranks_before(#[trigger] r0[k], x) by {
                vstd::seq_lib::to_multiset_contains(r0, r0[k]);
                vstd::seq_lib::to_multiset_contains(v@.take(i as int), r0[k]);
                let j = choose|j: int| 0 <= j < i && v@.take(i as int)[j] == r0[k];
                assert(v@[j].0@ != v@[i as int].0@);
                lemma_word_lt_total(r0[k].0@, x.0@);
            }
            assert forall|k: int| pos <= k < r0.len() implies ranks_before(x, #[trigger] r0[k]) by {
                if k > pos {
                    assert(ranks_before(r0[pos as int], r0[k]));
                    if x.1 == r0[k].1 && r0[pos as int].1 == x.1 {
                        lemma_word_lt_transitive(x.0@, r0[pos as int].0@, r0[k].0@);
                    }
                }
            }
            lemma_insert_ranked(r0, x, pos as int);
            vstd::seq_lib::to_multiset_insert(r0, pos as int, x);
            vstd::seq_lib::to_multiset_build(v@.take(i as int), x);
            assert(v@.take(i as int + 1) =~= v@.take(i as int).push(x));
        }
        r.insert(pos, x);
        i += 1;
    }
    assert(v@.take(v@.len() as int) =~= v@);
    r
}

/// A ranked word. Its weight is `count / max_count`, times
/// `(decay_count / max_count)` raised to `repetition`: the first pass of
/// the ranking has repetition zero, and each pass that repeat-to-fill adds
/// decays by the weight of the last-ranked word once more.
#[derive(Debug)]
pub struct WeightedWord {
    pub text: String,
    pub count: usize,
    pub max_count: usize,
    pub decay_count: usize,
    pub repetition: u32,
}

/// One pass over the ranking, every word at the given repetition.
pub open spec fn pass(base: Seq<(String, usize)>, max: usize, decay: usize, rep: u32) -> Seq<WeightedWord> {
    base.map_values(|e: (String, usize)| WeightedWord { text: e.0, count: e.1, max_count: max, decay_count: decay, repetition: rep })
}

/// The first `times` passes over the ranking, one after another.
pub open spec fn passes(base: Seq<(String, usize)>, max: usize, decay: usize, times: nat) -> Seq<WeightedWord>
    decreases times,
{
    if times == 0 {
        Seq::empty()
    } else {
        passes(base, max, decay, (times - 1) as nat) + pass(base, max, decay, (times - 1) as u32)
    }
}

/// Number of passes: enough to reach `max_words` when repeating a ranking
/// shorter than that, else one.
pub open spec fn pass_count(repeat: bool, max_words: u32, n: nat) -> nat {
    if repeat && 0 < n < max_words {
        ((max_words + n - 1) / (n as int)) as nat
    } else {
        1
    }
}

/// The weighted list made from a ranking: empty for an empty ranking, else
/// its passes, decayed by the last-ranked count.
pub open spec fn spread(repeat: bool, max_words: u32, base: Seq<(String, usize)>) -> Seq<WeightedWord> {
    if base.len() == 0 {
        Seq::empty()
    } else {
        passes(base, max_count(base) as usize, base.last().1, pass_count(repeat, max_words, base.len()))
    }
}

proof fn lemma_passes_len(base: Seq<(String, usize)>, max: usize, decay: usize, times: nat)
    ensures
        passes(base, max, decay, times).len() == base.len() * times,
    decreases times,
{
    if times > 0 {
        lemma_passes_len(base, max, decay, (times - 1) as nat);
        let prev = passes(base, max, decay, (times - 1) as nat);
        let last = pass(base, max, decay, (times - 1) as u32);
        assert(passes(base, max, decay, times) == prev + last);
        assert(last.len() == base.len());
        assert((prev + last).len() == prev.len() + last.len());
        assert(base.len() * times == base.len() * (times - 1) + base.len()) by (nonlinear_arith);
    } else {
        assert(base.len() * times == 0) by (nonlinear_arith)
            requires
                times == 0,
        ;
    }
}

/// Entry `j` of pass `q` in a list of passes over `n` words.
pub open spec fn pass_entry(r: Seq<WeightedWord>, n: int, q: int, j: int) -> WeightedWord {
    r[q * n + j]
}

proof fn lemma_passes_entry(base: Seq<(String, usize)>, max: usize, decay: usize, times: nat, q: int, j: int)
    requires
        0 <= q < times,
        0 <= j < base.len(),
        times <= u32::MAX,
    ensures
        pass_entry(passes(base, max, decay, times), base.len() as int, q, j) == (WeightedWord {
            text: base[j].0,
            count: base[j].1,
            max_count: max,
            decay_count: decay,
            repetition: q as u32,
        }),
    decreases times,
{
    let n = base.len() as int;
    let prev = passes(base, max, decay, (times - 1) as nat);
    lemma_passes_len(base, max, decay, (times - 1) as nat);
    assert(0 <= q * n + j) by (nonlinear_arith)
        requires
            0 <= q,
            0 <= j,
            n >= 0,
    ;
    if q < times - 1 {
        lemma_passes_entry(base, max, decay, (times - 1) as nat, q, j);
        assert((q + 1) * n <= (times - 1) * n) by (nonlinear_arith)
            requires
                0 <= q,
                q + 1 <= times - 1,
                n > 0,
        ;
        assert(q * n + j < n * (times - 1)) by (nonlinear_arith)
            requires
                (q + 1) * n <= (times - 1) * n,
                0 <= j < n,
        ;
    } else {
        assert(q * n + j == n * (times - 1) + j) by (nonlinear_arith)
            requires
                q == times - 1,
        ;
    }
}

/// Repeat-to-fill. For a ranking of `n` words, fewer than `max_words`,
/// the repeated list has at least `max_words` entries, one pass fewer
/// would have fewer, and entry `j` of pass `q` is ranked word `j` at
/// repetition `q`: its weight is decayed by the last-ranked weight `q` times.
pub proof fn lemma_repeat_to_fill(base: Seq<(String, usize)>, max_words: u32)
    requires
        0 < base.len() < max_words,
    ensures
        spread(true, max_words, base).len() >= max_words,
        spread(true, max_words, base).len() - base.len() < max_words,
        forall|q: int, j: int|
            0 <= q < pass_count(true, max_words, base.len()) && 0 <= j < base.len() ==> #[trigger] pass_entry(
                spread(true, max_words, base),
                base.len() as int,
                q,
                j,
            ) == (WeightedWord {
                text: base[j].0,
                count: base[j].1,
                max_count: max_count(base) as usize,
                decay_count: base.last().1,
                repetition: q as u32,
            }),
{
    let n = base.len();
    let m = max_words as int;
    let k = pass_count(true, max_words, n) as int;
    vstd::arithmetic::div_mod::lemma_fundamental_div_mod(m + n - 1, n as int);
    vstd::arithmetic::div_mod::lemma_mod_pos_bound(m + n - 1, n as int);
    assert(n * k >= m && n * (k - 1) < m && k <= m) by (nonlinear_arith)
        requires
            m + n - 1 == n * k + (m + n - 1) % (n as int),
            0 <= (m + n - 1) % (n as int) < n,
            0 < n < m,
    ;
    lemma_passes_len(base, max_count(base) as usize, base.last().1, k as nat);
    assert(n * (k - 1) == n * k - n) by (nonlinear_arith);
    assert forall|q: int, j: int| 0 <= q < k && 0 <= j < n implies #[trigger] pass_entry(
        spread(true, max_words, base),
        n as int,
        q,
        j,
    ) == (WeightedWord {
        text: base[j].0,
        count: base[j].1,
        max_count: max_count(base) as usize,
        decay_count: base.last().1,
        repetition: q as u32,
    }) by {
        lemma_passes_entry(base, max_count(base) as usize, base.last().1, k as nat, q, j);
    }
}

fn spread_passes(base: &Vec<(String, usize)>, repeat: bool, max_words: u32) -> (r: Vec<WeightedWord>)
    ensures
        r@ == spread(repeat, max_words, base@),
{
    let n = base.len();
    if n == 0 {
        return Vec::new();
    }
    let max = largest_count(base);
    proof {
        lemma_max_count(base@);
    }
    let decay = base[n - 1].1;
    let times: u32 = if repeat && n < max_words as usize {
        ((max_words as u64 + n as u64 - 1) / n as u64) as u32
    } else {
        1
    };
    assert(times == pass_count(repeat, max_words, n as nat)) by {
        if repeat && n < max_words {
            assert((max_words + n - 1) / (n as int) <= max_words) by (nonlinear_arith)
                requires
                    0 < n < max_words,
            ;
        }
    }
    let mut r: Vec<WeightedWord> = Vec::new();
    let mut q: u32 = 0;
    while q < times
        invariant
            n == base@.len(),
            n > 0,
            q <= times,
            max == max_count(base@),
            decay == base@.last().1,
            r@ == passes(base@, max, decay, q as nat),
        decreases times - q,
    {
        let mut j: usize = 0;
        while j < n
            invariant
                n == base@.len(),
                j <= n,
                q < times,
                r@ == passes(base@, max, decay, q as nat) + pass(base@.take(j as int), max, decay, q),
            decreases n - j,
        {
            let ghost before = r@;
            r.push(WeightedWord { text: base[j].0.clone(), count: base[j].1, max_count: max, decay_count: decay, repetition: q });
            assert(pass(base@.take(j as int + 1), max, decay, q) =~= pass(base@.take(j as int), max, decay, q).push(
                WeightedWord { text: base@[j as int].0, count: base@[j as int].1, max_count: max, decay_count: decay, repetition: q }));
            assert(r@ =~= passes(base@, max, decay, q as nat) + pass(base@.take(j as int + 1), max, decay, q));
            j += 1;
        }
        assert(base@.take(n as int) =~= base@);
        q += 1;
    }
    r
}

proof fn lemma_folded_count_permuted(ks: Seq<Seq<char>>, v: Seq<(String, usize)>, r: Seq<(String, usize)>)
    requires
        is_folded_count(ks, v),
        is_ranked(r),
        r.to_multiset() == v.to_multiset(),
    ensures
        is_folded_count(ks, r),
{
    assert forall|i: int| 0 <= i < r.len() implies exists|j: int| 0 <= j < v.len() && v[j] == #[trigger] r[i] by {
        vstd::seq_lib::to_multiset_contains(r, r[i]);
        vstd::seq_lib::to_multiset_contains(v, r[i]);
    }
    assert forall|i: int| 0 <= i < r.len() implies is_canonical(ks, (#[trigger] r[i]).0@) && r[i].1 == folded_count(ks, lower_of(r[i].0@)) by {
        let j = choose|j: int| 0 <= j < v.len() && v[j] == r[i];
    }
    assert forall|i: int, j: int| 0 <= i < r.len() && 0 <= j < r.len() && i != j implies lower_of((#[trigger] r[i]).0@) != lower_of((#[trigger] r[j]).0@) by {
        let a = choose|a: int| 0 <= a < v.len() && v[a] == r[i];
        let b = choose|b: int| 0 <= b < v.len() && v[b] == r[j];
        if i < j {
            assert(ranks_before(r[i], r[j]));
        } else {
            assert(ranks_before(r[j], r[i]));
        }
        lemma_word_lt_total(r[i].0@, r[i].0@);
        if a == b {
            assert(r[i] == r[j]);
        }
    }
    assert forall|t: Seq<char>| occurrences(ks, t) > 0 implies exists|i: int| 0 <= i < r.len() && lower_of((#[trigger] r[i]).0@) == lower_of(t) by {
        let j = choose|j: int| 0 <= j < v.len() && lower_of((#[trigger] v[j]).0@) == lower_of(t);
        vstd::seq_lib::to_multiset_contains(v, v[j]);
        vstd::seq_lib::to_multiset_contains(r, v[j]);
        let i = choose|i: int| 0 <= i < r.len() && r[i] == v[j];
        assert(lower_of(r[i].0@) == lower_of(t));
    }
}

/// Counts words with case folded: one entry per lowercase form, holding the
/// form's most frequent spelling (the greatest on a tie) and the number of
/// words that lowercase to it.
pub fn keep_common_case(words: &Vec<String>) -> (r: Vec<(String, usize)>)
    ensures
        is_folded_count(views(words@), r@),
{
    let (exact, lowers) = count_words(words);
    pick_common_case(&exact, &lowers, Ghost(views(words@)))
}

impl Tokenizer {
    /// The matches of this tokenizer's pattern in the text; none without a pattern.
    pub open spec fn matches_in_text(&self, text: Seq<char>) -> Seq<Seq<char>> {
        match self.regex {
            Some(re) => matches_of(re, text),
            None => Seq::empty(),
        }
    }

    fn matches_in(&self, text: &str) -> (r: Vec<String>)
        ensures
            views(r@) == self.matches_in_text(text@),
    {
        match &self.regex {
            Some(re) => find_words(re, text),
            None => {
                let v: Vec<String> = Vec::new();
                assert(views(v@) =~= Seq::<Seq<char>>::empty());
                v
            },
        }
    }

    /// The case-folded counts of the words that survive the scan of these
    /// matches, one entry per lowercase form (its most frequent spelling,
    /// the greatest on a tie), and the largest count (zero when none).
    pub fn word_frequencies_from_matches(&self, matches: &Vec<String>) -> (r: (Vec<(String, usize)>, usize))
        ensures
            is_folded_count(self.words_of(views(matches@)), r.0@),
            r.1 == max_count(r.0@),
    {
        let words = self.filter_tokens(matches);
        let folded = keep_common_case(&words);
        let max = largest_count(&folded);
        (folded, max)
    }

    /// The case-folded counts of the words of `text` and the largest count.
    pub fn get_word_frequencies(&self, text: &str) -> (r: (Vec<(String, usize)>, usize))
        ensures
            is_folded_count(self.words_of(self.matches_in_text(text@)), r.0@),
            r.1 == max_count(r.0@),
            self.regex is None ==> r.0@.len() == 0,
    {
        let matches = self.matches_in(text);
        self.word_frequencies_from_matches(&matches)
    }

    /// The ranked words of these matches: by count, highest first, then by
    /// word; when repeating a ranking shorter than `max_words`, further
    /// passes over it follow, each decayed once more, until there are at
    /// least `max_words` entries.
    pub fn normalized_frequencies_from_matches(&self, matches: &Vec<String>) -> (r: Vec<WeightedWord>)
        ensures
            exists|base: Seq<(String, usize)>|
                is_folded_count(self.words_of(views(matches@)), base) && is_ranked(base)
                    && r@ == spread(self.repeat, self.max_words, base),
    {
        let words = self.filter_tokens(matches);
        let folded = keep_common_case(&words);
        proof {
            lemma_word_lt_total(Seq::empty(), Seq::empty());
            assert forall|i: int, j: int| 0 <= i < folded@.len() && 0 <= j < folded@.len() && i != j implies (#[trigger] folded@[i]).0@ != (#[trigger] folded@[j]).0@ by {
                assert(lower_of(folded@[i].0@) != lower_of(folded@[j].0@));
            }
        }
        let ranked = rank(&folded);
        proof {
            lemma_folded_count_permuted(views(words@), folded@, ranked@);
        }
        spread_passes(&ranked, self.repeat, self.max_words)
    }

    /// The ranked, weighted words of `text`.
    pub fn get_normalized_word_frequencies(&self, text: &str) -> (r: Vec<WeightedWord>)
        ensures
            exists|base: Seq<(String, usize)>|
                is_folded_count(self.words_of(self.matches_in_text(text@)), base) && is_ranked(base)
                    && r@ == spread(self.repeat, self.max_words, base),
            self.regex is None ==> r@.len() == 0,
    {
        let matches = self.matches_in(text);
        self.normalized_frequencies_from_matches(&matches)
    }
}

} // verus!
