//! Pattern-based fact extraction, with no model in the loop.
//!
//! Seven regular expressions run over the lowercased text: "my name is X",
//! "i use X", "i work at X", "i prefer X", "i live in X", "i hate X" and "my
//! favorite X is Y". Each match gives a fact about the user. An object is
//! cut at the first stop word; a favorite is written "X: Y". Objects that
//! come out empty or longer than 50 characters are dropped.

use vstd::prelude::*;
use crate::fact::opt_view;
use crate::text::{
    chars_of, string_of, to_lower, lowercase, split_ws, ws_words, words_view, trim_chars, trimmed,
    join_with_space, join_space, seq_eq, str_eq, owned, lemma_ws_words_clean, lemma_words_of_join,
};

verus! {

/// A fact found in text.
pub struct ExtractedFact {
    pub subject: String,
    pub predicate: String,
    pub object: String,
    /// In millionths.
    pub confidence: u64,
    pub source: String,
}

pub struct ExtractedView {
    pub subject: Seq<char>,
    pub predicate: Seq<char>,
    pub object: Seq<char>,
    pub confidence: u64,
    pub source: Seq<char>,
}

impl View for ExtractedFact {
    type V = ExtractedView;

    open spec fn view(&self) -> ExtractedView {
        ExtractedView {
            subject: self.subject@,
            predicate: self.predicate@,
            object: self.object@,
            confidence: self.confidence,
            source: self.source@,
        }
    }
}

pub open spec fn extracted_view(v: Seq<ExtractedFact>) -> Seq<ExtractedView> {
    v.map_values(|f: ExtractedFact| f@)
}

/// Number of extraction rules.
pub const RULE_COUNT: usize = 7;

/// Longest object kept, in characters.
pub const MAX_OBJECT_LEN: usize = 50;

/// The regular expression of rule `k`.
pub open spec fn rule_pattern(k: int) -> Seq<char> {
    if k == 0 {
        r"(?:my name is|i'm|i am) ([a-z][a-z]+(?: [a-z]+)*)"@
    } else if k == 1 {
        r"(?:i use|i'm using|i am using) ([a-z][a-z0-9]+(?:[.\-_ ][a-z0-9]+)*)"@
    } else if k == 2 {
        r"(?:i work at|i'm at|i am at) ([a-z][a-z0-9]+(?: [a-z0-9]+)*)"@
    } else if k == 3 {
        r"(?:i prefer|i like|i love) ([a-z][a-z0-9]+(?:[.\-_ ][a-z0-9]+)*)"@
    } else if k == 4 {
        r"(?:i live in|i'm in|i am in) ([a-z][a-z]+(?: [a-z]+)*)"@
    } else if k == 5 {
        r"(?:i hate|i can't stand|i dislike) ([a-z][a-z0-9]+(?:[.\-_ ][a-z0-9]+)*)"@
    } else {
        r"(?:my favorite|my favourite) ([a-z][a-z]+) is ([a-z][a-z0-9]+(?:[.\-_ ][a-z0-9]+)*)"@
    }
}

/// The predicate of rule `k`.
pub open spec fn rule_predicate(k: int) -> Seq<char> {
    if k == 0 {
        "name"@
    } else if k == 1 {
        "uses"@
    } else if k == 2 {
        "works_at"@
    } else if k == 3 {
        "prefers"@
    } else if k == 4 {
        "lives_in"@
    } else if k == 5 {
        "dislikes"@
    } else {
        "favorite"@
    }
}

/// The confidence of rule `k`, in millionths: 1.0, except 0.6 for
/// preferences, 0.7 for dislikes and 0.8 for favorites.
pub open spec fn rule_confidence(k: int) -> u64 {
    if k == 3 {
        600_000
    } else if k == 5 {
        700_000
    } else if k == 6 {
        800_000
    } else {
        1_000_000
    }
}

/// The alternatives joined by "|".
pub open spec fn alternation(alts: Seq<Seq<char>>) -> Seq<char>
    decreases alts.len(),
{
    if alts.len() <= 1 {
        if alts.len() == 1 {
            alts[0]
        } else {
            seq![]
        }
    } else {
        alternation(alts.drop_last()) + "|"@ + alts.last()
    }
}

/// The pattern starts by matching any one of the openers, then a space:
/// "(?:A|B|C) ".
pub open spec fn opens_with(pattern: Seq<char>, openers: Seq<Seq<char>>) -> bool {
    let head = "(?:"@ + alternation(openers) + ") "@;
    head.len() <= pattern.len() && pattern.take(head.len() as int) == head
}

/// The phrases each rule answers to, and what it records. The uses rule
/// answers to "i use", "i'm using" and "i am using" alike, each giving
/// (user, uses, X) at confidence 1.0; the name rule to "my name is", "i'm"
/// and "i am"; the work rule to "i work at", "i'm at" and "i am at";
/// preferences ("i prefer", "i like", "i love") weigh 0.6; the home rule
/// answers to "i live in", "i'm in" and "i am in"; dislikes ("i hate", "i
/// can't stand", "i dislike") weigh 0.7; favorites ("my favorite", "my
/// favourite") weigh 0.8.
pub proof fn law_rule_phrases(k: int)
    requires
        0 <= k < RULE_COUNT,
    ensures
        rule_predicate(k) == "name"@ ==> opens_with(rule_pattern(k), seq!["my name is"@, "i'm"@, "i am"@])
            && rule_confidence(k) == 1_000_000,
        rule_predicate(k) == "uses"@ ==> opens_with(rule_pattern(k), seq!["i use"@, "i'm using"@, "i am using"@])
            && rule_confidence(k) == 1_000_000,
        rule_predicate(k) == "works_at"@ ==> opens_with(rule_pattern(k), seq!["i work at"@, "i'm at"@, "i am at"@])
            && rule_confidence(k) == 1_000_000,
        rule_predicate(k) == "prefers"@ ==> opens_with(rule_pattern(k), seq!["i prefer"@, "i like"@, "i love"@])
            && rule_confidence(k) == 600_000,
        rule_predicate(k) == "lives_in"@ ==> opens_with(rule_pattern(k), seq!["i live in"@, "i'm in"@, "i am in"@])
            && rule_confidence(k) == 1_000_000,
        rule_predicate(k) == "dislikes"@ ==> opens_with(
            rule_pattern(k),
            seq!["i hate"@, "i can't stand"@, "i dislike"@],
        ) && rule_confidence(k) == 700_000,
        rule_predicate(k) == "favorite"@ ==> opens_with(rule_pattern(k), seq!["my favorite"@, "my favourite"@])
            && rule_confidence(k) == 800_000,
        exists|j: int| 0 <= j < RULE_COUNT && #[trigger] rule_predicate(j) == "uses"@,
{
    reveal_with_fuel(alternation, 4);
    assert(rule_predicate(1) == "uses"@);
    reveal_strlit("name");
    reveal_strlit("uses");
    reveal_strlit("works_at");
    reveal_strlit("prefers");
    reveal_strlit("lives_in");
    reveal_strlit("dislikes");
    reveal_strlit("favorite");
    reveal_strlit("(?:");
    reveal_strlit("|");
    reveal_strlit(") ");
    assert("name"@[0] != "uses"@[0]);
    assert("works_at"@[0] != "lives_in"@[0] && "works_at"@[0] != "dislikes"@[0] && "works_at"@[0] != "favorite"@[0]);
    assert("lives_in"@[0] != "dislikes"@[0] && "lives_in"@[0] != "favorite"@[0] && "dislikes"@[0] != "favorite"@[0]);
    if k == 0 {
        reveal_strlit(r"(?:my name is|i'm|i am) ([a-z][a-z]+(?: [a-z]+)*)");
        reveal_strlit("my name is");
        reveal_strlit("i'm");
        reveal_strlit("i am");
        let head = "(?:"@ + alternation(seq!["my name is"@, "i'm"@, "i am"@]) + ") "@;
        assert(alternation(seq!["my name is"@, "i'm"@, "i am"@]) =~= "my name is"@ + "|"@ + "i'm"@ + "|"@ + "i am"@);
        assert(rule_pattern(0).take(head.len() as int) =~= head);
    } else if k == 1 {
        reveal_strlit(r"(?:i use|i'm using|i am using) ([a-z][a-z0-9]+(?:[.\-_ ][a-z0-9]+)*)");
        reveal_strlit("i use");
        reveal_strlit("i'm using");
        reveal_strlit("i am using");
        let head = "(?:"@ + alternation(seq!["i use"@, "i'm using"@, "i am using"@]) + ") "@;
        assert(alternation(seq!["i use"@, "i'm using"@, "i am using"@]) =~= "i use"@ + "|"@ + "i'm using"@ + "|"@ + "i am using"@);
        assert(rule_pattern(1).take(head.len() as int) =~= head);
    } else if k == 2 {
        reveal_strlit(r"(?:i work at|i'm at|i am at) ([a-z][a-z0-9]+(?: [a-z0-9]+)*)");
        reveal_strlit("i work at");
        reveal_strlit("i'm at");
        reveal_strlit("i am at");
        let head = "(?:"@ + alternation(seq!["i work at"@, "i'm at"@, "i am at"@]) + ") "@;
        assert(alternation(seq!["i work at"@, "i'm at"@, "i am at"@]) =~= "i work at"@ + "|"@ + "i'm at"@ + "|"@ + "i am at"@);
        assert(rule_pattern(2).take(head.len() as int) =~= head);
    } else if k == 3 {
        reveal_strlit(r"(?:i prefer|i like|i love) ([a-z][a-z0-9]+(?:[.\-_ ][a-z0-9]+)*)");
        reveal_strlit("i prefer");
        reveal_strlit("i like");
        reveal_strlit("i love");
        let head = "(?:"@ + alternation(seq!["i prefer"@, "i like"@, "i love"@]) + ") "@;
        assert(alternation(seq!["i prefer"@, "i like"@, "i love"@]) =~= "i prefer"@ + "|"@ + "i like"@ + "|"@ + "i love"@);
        assert(rule_pattern(3).take(head.len() as int) =~= head);
    } else if k == 4 {
        reveal_strlit(r"(?:i live in|i'm in|i am in) ([a-z][a-z]+(?: [a-z]+)*)");
        reveal_strlit("i live in");
        reveal_strlit("i'm in");
        reveal_strlit("i am in");
        let head = "(?:"@ + alternation(seq!["i live in"@, "i'm in"@, "i am in"@]) + ") "@;
        assert(alternation(seq!["i live in"@, "i'm in"@, "i am in"@]) =~= "i live in"@ + "|"@ + "i'm in"@ + "|"@ + "i am in"@);
        assert(rule_pattern(4).take(head.len() as int) =~= head);
    } else if k == 5 {
        reveal_strlit(r"(?:i hate|i can't stand|i dislike) ([a-z][a-z0-9]+(?:[.\-_ ][a-z0-9]+)*)");
        reveal_strlit("i hate");
        reveal_strlit("i can't stand");
        reveal_strlit("i dislike");
        let head = "(?:"@ + alternation(seq!["i hate"@, "i can't stand"@, "i dislike"@]) + ") "@;
        assert(alternation(seq!["i hate"@, "i can't stand"@, "i dislike"@]) =~= "i hate"@ + "|"@ + "i can't stand"@ + "|"@ + "i dislike"@);
        assert(rule_pattern(5).take(head.len() as int) =~= head);
    } else {
        reveal_strlit(r"(?:my favorite|my favourite) ([a-z][a-z]+) is ([a-z][a-z0-9]+(?:[.\-_ ][a-z0-9]+)*)");
        reveal_strlit("my favorite");
        reveal_strlit("my favourite");
        let head = "(?:"@ + alternation(seq!["my favorite"@, "my favourite"@]) + ") "@;
        assert(alternation(seq!["my favorite"@, "my favourite"@]) =~= "my favorite"@ + "|"@ + "my favourite"@);
        assert(rule_pattern(6).take(head.len() as int) =~= head);
    }
}

fn rule(k: usize) -> (r: (&'static str, &'static str, u64))
    requires
        k < RULE_COUNT,
    ensures
        r.0@ == rule_pattern(k as int),
        r.1@ == rule_predicate(k as int),
        r.2 == rule_confidence(k as int),
{
    if k == 0 {
        (r"(?:my name is|i'm|i am) ([a-z][a-z]+(?: [a-z]+)*)", "name", 1_000_000)
    } else if k == 1 {
        (r"(?:i use|i'm using|i am using) ([a-z][a-z0-9]+(?:[.\-_ ][a-z0-9]+)*)", "uses", 1_000_000)
    } else if k == 2 {
        (r"(?:i work at|i'm at|i am at) ([a-z][a-z0-9]+(?: [a-z0-9]+)*)", "works_at", 1_000_000)
    } else if k == 3 {
        (r"(?:i prefer|i like|i love) ([a-z][a-z0-9]+(?:[.\-_ ][a-z0-9]+)*)", "prefers", 600_000)
    } else if k == 4 {
        (r"(?:i live in|i'm in|i am in) ([a-z][a-z]+(?: [a-z]+)*)", "lives_in", 1_000_000)
    } else if k == 5 {
        (r"(?:i hate|i can't stand|i dislike) ([a-z][a-z0-9]+(?:[.\-_ ][a-z0-9]+)*)", "dislikes", 700_000)
    } else {
        (
            r"(?:my favorite|my favourite) ([a-z][a-z]+) is ([a-z][a-z0-9]+(?:[.\-_ ][a-z0-9]+)*)",
            "favorite",
            800_000,
        )
    }
}

/// The words at which an extracted object is cut.
pub open spec fn stop_list() -> Seq<Seq<char>> {
    seq!["and"@, "but"@, "or"@, "so"@, "because"@, "i"@, "my"@, "we"@, "they"@]
}

pub open spec fn strs_view(v: Seq<&str>) -> Seq<Seq<char>> {
    v.map_values(|s: &str| s@)
}

/// Index of the first word that is a stop word, or the number of words.
pub open spec fn stop_index(words: Seq<Seq<char>>, stops: Seq<Seq<char>>) -> int
    decreases words.len(),
{
    if words.len() == 0 {
        0
    } else if stops.contains(words[0]) {
        0
    } else {
        1 + stop_index(words.drop_first(), stops)
    }
}

proof fn lemma_stop_index(words: Seq<Seq<char>>, stops: Seq<Seq<char>>, i: int)
    requires
        0 <= i <= words.len(),
        forall|j: int| 0 <= j < i ==> !stops.contains(#[trigger] words[j]),
        i == words.len() || stops.contains(words[i]),
    ensures
        stop_index(words, stops) == i,
    decreases i,
{
    if i > 0 {
        assert forall|j: int| 0 <= j < i - 1 implies !stops.contains(#[trigger] words.drop_first()[j]) by {
            assert(words.drop_first()[j] == words[j + 1]);
        }
        if i < words.len() {
            assert(words.drop_first()[i - 1] == words[i]);
        }
        lemma_stop_index(words.drop_first(), stops, i - 1);
        assert(!stops.contains(words[0]));
    }
}

/// The words of `s` up to the first stop word, joined by single spaces.
pub open spec fn cut_at_stop(s: Seq<char>, stops: Seq<Seq<char>>) -> Seq<char> {
    let w = ws_words(s);
    join_space(w.take(stop_index(w, stops)))
}

proof fn lemma_before_stop(words: Seq<Seq<char>>, stops: Seq<Seq<char>>)
    ensures
        0 <= stop_index(words, stops) <= words.len(),
        forall|j: int| 0 <= j < stop_index(words, stops) ==> !stops.contains(#[trigger] words[j]),
    decreases words.len(),
{
    if words.len() > 0 && !stops.contains(words[0]) {
        let rest = words.drop_first();
        lemma_before_stop(rest, stops);
        assert forall|j: int| 0 <= j < stop_index(words, stops) implies !stops.contains(#[trigger] words[j]) by {
            if j > 0 {
                assert(words[j] == rest[j - 1]);
            }
        }
    }
}

/// Cutting at stop words keeps the first words of the text, up to the
/// first stop word; none of the words kept is a stop word; and cutting the
/// result again changes nothing.
pub proof fn law_cut_at_stop(s: Seq<char>, stops: Seq<Seq<char>>)
    ensures
        ws_words(cut_at_stop(s, stops)) == ws_words(s).take(stop_index(ws_words(s), stops)),
        forall|j: int|
            0 <= j < ws_words(cut_at_stop(s, stops)).len() ==> !stops.contains(
                #[trigger] ws_words(cut_at_stop(s, stops))[j],
            ),
        cut_at_stop(cut_at_stop(s, stops), stops) == cut_at_stop(s, stops),
{
    let w = ws_words(s);
    let k = stop_index(w, stops);
    let t = w.take(k);
    lemma_before_stop(w, stops);
    lemma_ws_words_clean(s);
    assert forall|i: int| 0 <= i < t.len() implies #[trigger] t[i].len() > 0 && crate::text::all_non_ws(t[i]) by {
        assert(t[i] == w[i]);
    }
    lemma_words_of_join(t);
    assert forall|j: int| 0 <= j < t.len() implies !stops.contains(#[trigger] t[j]) by {
        assert(t[j] == w[j]);
    }
    lemma_stop_index(t, stops, t.len() as int);
    assert(t.take(t.len() as int) =~= t);
}

fn is_stop_word(w: &Vec<char>, stop_words: &[&str]) -> (r: bool)
    ensures
        r == strs_view(stop_words@).contains(w@),
{
    let mut i: usize = 0;
    while i < stop_words.len()
        invariant
            i <= stop_words.len(),
            forall|j: int| 0 <= j < i ==> stop_words@[j]@ != w@,
        decreases stop_words.len() - i,
    {
        let s = chars_of(stop_words[i]);
        if seq_eq(&s, w) {
            assert(strs_view(stop_words@)[i as int] == w@);
            return true;
        }
        i = i + 1;
    }
    proof {
        if strs_view(stop_words@).contains(w@) {
            let j = choose|j: int| 0 <= j < strs_view(stop_words@).len() && strs_view(stop_words@)[j] == w@;
            assert(stop_words@[j]@ == w@);
        }
    }
    false
}

/// The whitespace-separated words of `s` up to, not including, the first
/// one that is a stop word, joined by single spaces.
pub fn trim_at_stop_words(s: &str, stop_words: &[&str]) -> (r: String)
    ensures
        r@ == cut_at_stop(s@, strs_view(stop_words@)),
{
    let cs = chars_of(s);
    let words = split_ws(&cs);
    let ghost wv = words_view(words@);
    let ghost stops = strs_view(stop_words@);
    let mut end: usize = 0;
    while end < words.len()
        invariant
            wv == words_view(words@),
            stops == strs_view(stop_words@),
            end <= words.len(),
            forall|j: int| 0 <= j < end ==> !stops.contains(#[trigger] wv[j]),
        ensures
            end <= words.len(),
            forall|j: int| 0 <= j < end ==> !stops.contains(#[trigger] wv[j]),
            end == words.len() || stops.contains(wv[end as int]),
        decreases words.len() - end,
    {
        if is_stop_word(&words[end], stop_words) {
            break;
        }
        end = end + 1;
    }
    proof {
        lemma_stop_index(wv, stops, end as int);
    }
    let joined = join_with_space(&words, end);
    string_of(&joined)
}

/// What `regex::Regex::captures_iter` yields for `pattern` over `text`:
/// for each successive non-overlapping match, its capture groups (group 0
/// the whole match), each the matched text or nothing; nothing at all when
/// `pattern` does not compile.
pub uninterp spec fn regex_captures(pattern: Seq<char>, text: Seq<char>) -> Option<
    Seq<Seq<Option<Seq<char>>>>,
>;

pub open spec fn groups_view(c: Seq<Option<String>>) -> Seq<Option<Seq<char>>> {
    c.map_values(|g: Option<String>| opt_view(g))
}

pub open spec fn captures_view(v: Seq<Vec<Option<String>>>) -> Seq<Seq<Option<Seq<char>>>> {
    v.map_values(|c: Vec<Option<String>>| groups_view(c@))
}

/// Calls `regex::Regex::new` on `pattern` and, when it compiles,
/// `Regex::captures_iter` on `text`, turning every group into its text.
/// The result is `regex_captures` of the two arguments.
#[verifier::external_body]
fn captures_all(pattern: &str, text: &str) -> (r: Option<Vec<Vec<Option<String>>>>)
    ensures
        match r {
            Some(v) => regex_captures(pattern@, text@) == Some(captures_view(v@)),
            None => regex_captures(pattern@, text@) is None,
        },
{
    match regex::Regex::new(pattern) {
        Ok(re) => Some(
            re.captures_iter(text).map(
                |c| c.iter().map(|g| g.map(|m| m.as_str().to_string())).collect(),
            ).collect(),
        ),
        Err(_) => None,
    }
}

/// Group `i` of a match, if it exists and took part.
pub open spec fn group(c: Seq<Option<Seq<char>>>, i: int) -> Option<Seq<char>> {
    if 0 <= i < c.len() {
        c[i]
    } else {
        None
    }
}

/// The object a match gives, when its first group took part: for a
/// favorite, "X: Y" from the two groups; otherwise the first group cut at
/// the first stop word. Groups are trimmed of whitespace.
pub open spec fn object_of(c: Seq<Option<Seq<char>>>, predicate: Seq<char>) -> Option<Seq<char>> {
    match group(c, 1) {
        None => None,
        Some(g1) => {
            let raw = trimmed(g1);
            Some(
                if predicate == "favorite"@ {
                    match group(c, 2) {
                        Some(g2) => raw + ": "@ + trimmed(g2),
                        None => raw,
                    }
                } else {
                    cut_at_stop(raw, stop_list())
                },
            )
        },
    }
}

/// An object is kept when it is not empty and at most 50 characters long.
pub open spec fn acceptable(object: Seq<char>) -> bool {
    0 < object.len() <= MAX_OBJECT_LEN
}

/// The facts the matches give, in match order.
pub open spec fn captures_facts(
    subject: Seq<char>,
    predicate: Seq<char>,
    confidence: u64,
    caps: Seq<Seq<Option<Seq<char>>>>,
) -> Seq<ExtractedView>
    decreases caps.len(),
{
    if caps.len() == 0 {
        seq![]
    } else {
        let prev = captures_facts(subject, predicate, confidence, caps.drop_last());
        match object_of(caps.last(), predicate) {
            Some(o) => if acceptable(o) {
                prev.push(
                    ExtractedView { subject, predicate, object: o, confidence, source: "inferred"@ },
                )
            } else {
                prev
            },
            None => prev,
        }
    }
}

fn group_text(c: &Vec<Option<String>>, i: usize) -> (r: Option<Vec<char>>)
    ensures
        match r {
            Some(v) => group(groups_view(c@), i as int) == Some(v@),
            None => group(groups_view(c@), i as int) is None,
        },
{
    if i < c.len() {
        match &c[i] {
            Some(s) => Some(chars_of(s.as_str())),
            None => None,
        }
    } else {
        None
    }
}

/// The facts the matches of one rule give (see `captures_facts`): this is
/// what follows the regular expression's work in `extract_from_text`.
pub fn facts_from_captures(
    subject: &str,
    predicate: &str,
    confidence: u64,
    caps: &Vec<Vec<Option<String>>>,
) -> (r: Vec<ExtractedFact>)
    ensures
        extracted_view(r@) == captures_facts(subject@, predicate@, confidence, captures_view(caps@)),
{
    let stop_words: [&str; 9] = ["and", "but", "or", "so", "because", "i", "my", "we", "they"];
    assert(strs_view(stop_words@) =~= stop_list());
    let favorite = str_eq(predicate, "favorite");
    let ghost cv = captures_view(caps@);
    let mut r: Vec<ExtractedFact> = Vec::new();
    let mut i: usize = 0;
    while i < caps.len()
        invariant
            cv == captures_view(caps@),
            strs_view(stop_words@) == stop_list(),
            favorite == (predicate@ == "favorite"@),
            i <= caps.len(),
            extracted_view(r@) == captures_facts(subject@, predicate@, confidence, cv.take(i as int)),
        decreases caps.len() - i,
    {
        let c = &caps[i];
        assert(cv.take(i + 1).drop_last() =~= cv.take(i as int));
        assert(cv.take(i + 1).last() == groups_view(c@));
        match group_text(c, 1) {
            None => {},
            Some(g1) => {
                let raw = trim_chars(&g1);
                let object: Vec<char> = if favorite {
                    match group_text(c, 2) {
                        Some(g2) => {
                            let mut o = raw;
                            o.push(':');
                            o.push(' ');
                            let t = trim_chars(&g2);
                            let ghost base = o@;
                            let mut k: usize = 0;
                            while k < t.len()
                                invariant
                                    k <= t.len(),
                                    o@ == base + t@.take(k as int),
                                decreases t.len() - k,
                            {
                                o.push(t[k]);
                                k = k + 1;
                                assert(o@ =~= base + t@.take(k as int));
                            }
                            proof {
                                reveal_strlit(": ");
                                assert(t@.take(k as int) =~= t@);
                                assert(base =~= trimmed(g1@) + ": "@);
                            }
                            o
                        },
                        None => raw,
                    }
                } else {
                    let s = string_of(&raw);
                    let cut = trim_at_stop_words(s.as_str(), &stop_words);
                    chars_of(cut.as_str())
                };
                if object.len() > 0 && object.len() <= MAX_OBJECT_LEN {
                    let f = ExtractedFact {
                        subject: owned(subject),
                        predicate: owned(predicate),
                        object: string_of(&object),
                        confidence,
                        source: owned("inferred"),
                    };
                    let ghost before = r@;
                    r.push(f);
                    assert(extracted_view(r@) =~= extracted_view(before).push(f@));
                }
            },
        }
        i = i + 1;
    }
    assert(cv.take(i as int) =~= cv);
    r
}

/// The facts of every rule in turn, over the lowercased text.
pub open spec fn rules_facts(subject: Seq<char>, lower: Seq<char>, n: int) -> Seq<ExtractedView>
    decreases n,
{
    if n <= 0 {
        seq![]
    } else {
        let prev = rules_facts(subject, lower, n - 1);
        match regex_captures(rule_pattern(n - 1), lower) {
            Some(caps) => prev + captures_facts(subject, rule_predicate(n - 1), rule_confidence(n - 1), caps),
            None => prev,
        }
    }
}

/// The facts found in `text` about `user_name` (default "user"): the
/// matches of each rule in turn over the lowercased text; see
/// `captures_facts`.
pub open spec fn extraction(text: Seq<char>, user_name: Option<Seq<char>>) -> Seq<ExtractedView> {
    let subject = match user_name {
        Some(u) => u,
        None => "user"@,
    };
    rules_facts(subject, lowercase(text), RULE_COUNT as int)
}

/// Extract facts from text with the seven rules; see `extraction`.
pub fn extract_from_text(text: &str, user_name: Option<&str>) -> (r: Vec<ExtractedFact>)
    ensures
        extracted_view(r@) == extraction(text@, match user_name {
            Some(u) => Some(u@),
            None => None,
        }),
{
    let subject: String = match user_name {
        Some(u) => owned(u),
        None => owned("user"),
    };
    let lower = to_lower(text);
    let mut facts: Vec<ExtractedFact> = Vec::new();
    let mut k: usize = 0;
    while k < RULE_COUNT
        invariant
            k <= RULE_COUNT,
            lower@ == lowercase(text@),
            extracted_view(facts@) == rules_facts(subject@, lower@, k as int),
        decreases RULE_COUNT - k,
    {
        let (pattern, predicate, confidence) = rule(k);
        match captures_all(pattern, lower.as_str()) {
            Some(caps) => {
                let mut found = facts_from_captures(subject.as_str(), predicate, confidence, &caps);
                let ghost before = facts@;
                let ghost got = found@;
                facts.append(&mut found);
                assert(facts@ == before + got);
                assert(extracted_view(facts@) =~= extracted_view(before) + extracted_view(got));
            },
            None => {},
        }
        k = k + 1;
    }
    facts
}

/// A fact the extraction keeps: about the subject, inferred, with one of
/// the rules' predicates and confidences, and an object of 1 to 50
/// characters.
pub open spec fn well_extracted(f: ExtractedView, subject: Seq<char>) -> bool {
    &&& f.subject == subject
    &&& f.source == "inferred"@
    &&& acceptable(f.object)
    &&& exists|k: int| 0 <= k < RULE_COUNT && f.predicate == rule_predicate(k) && f.confidence == rule_confidence(k)
}

proof fn lemma_captures_facts_well(subject: Seq<char>, k: int, caps: Seq<Seq<Option<Seq<char>>>>)
    requires
        0 <= k < RULE_COUNT,
    ensures
        forall|i: int|
            0 <= i < captures_facts(subject, rule_predicate(k), rule_confidence(k), caps).len() ==> well_extracted(
                #[trigger] captures_facts(subject, rule_predicate(k), rule_confidence(k), caps)[i],
                subject,
            ),
    decreases caps.len(),
{
    if caps.len() > 0 {
        lemma_captures_facts_well(subject, k, caps.drop_last());
        let prev = captures_facts(subject, rule_predicate(k), rule_confidence(k), caps.drop_last());
        let all = captures_facts(subject, rule_predicate(k), rule_confidence(k), caps);
        assert forall|i: int| 0 <= i < all.len() implies well_extracted(#[trigger] all[i], subject) by {
            if i < prev.len() {
                assert(all[i] == prev[i]);
            }
        }
    }
}

proof fn lemma_rules_facts_well(subject: Seq<char>, lower: Seq<char>, n: int)
    requires
        n <= RULE_COUNT,
    ensures
        forall|i: int|
            0 <= i < rules_facts(subject, lower, n).len() ==> well_extracted(
                #[trigger] rules_facts(subject, lower, n)[i],
                subject,
            ),
    decreases n,
{
    if n > 0 {
        lemma_rules_facts_well(subject, lower, n - 1);
        let prev = rules_facts(subject, lower, n - 1);
        let all = rules_facts(subject, lower, n);
        match regex_captures(rule_pattern(n - 1), lower) {
            Some(caps) => {
                lemma_captures_facts_well(subject, n - 1, caps);
                let more = captures_facts(subject, rule_predicate(n - 1), rule_confidence(n - 1), caps);
                assert forall|i: int| 0 <= i < all.len() implies well_extracted(#[trigger] all[i], subject) by {
                    if i < prev.len() {
                        assert(all[i] == prev[i]);
                    } else {
                        assert(all[i] == more[i - prev.len()]);
                    }
                }
            },
            None => {},
        }
    }
}

proof fn lemma_rule_facts_kept(subject: Seq<char>, lower: Seq<char>, n: int, k: int)
    requires
        0 <= k < n,
    ensures
        regex_captures(rule_pattern(k), lower) matches Some(caps) ==> forall|i: int|
            0 <= i < captures_facts(subject, rule_predicate(k), rule_confidence(k), caps).len()
                ==> rules_facts(subject, lower, n).contains(
                #[trigger] captures_facts(subject, rule_predicate(k), rule_confidence(k), caps)[i],
            ),
    decreases n,
{
    let prev = rules_facts(subject, lower, n - 1);
    let all = rules_facts(subject, lower, n);
    if let Some(caps) = regex_captures(rule_pattern(k), lower) {
        let cf = captures_facts(subject, rule_predicate(k), rule_confidence(k), caps);
        if k < n - 1 {
            lemma_rule_facts_kept(subject, lower, n - 1, k);
            assert forall|i: int| 0 <= i < cf.len() implies all.contains(#[trigger] cf[i]) by {
                let j = choose|j: int| 0 <= j < prev.len() && prev[j] == cf[i];
                match regex_captures(rule_pattern(n - 1), lower) {
                    Some(c2) => {
                        assert(all[j] == prev[j]);
                    },
                    None => {},
                }
            }
        } else {
            assert forall|i: int| 0 <= i < cf.len() implies all.contains(#[trigger] cf[i]) by {
                assert(all[prev.len() + i] == cf[i]);
            }
        }
    }
}

/// Every rule runs over the lowercased text: whatever one rule's regular
/// expression matches gives its facts (the rule's predicate and confidence,
/// about the user) in the extraction, next to those of the other rules.
pub proof fn law_every_rule_contributes(text: Seq<char>, user_name: Option<Seq<char>>, k: int)
    requires
        0 <= k < RULE_COUNT,
    ensures
        ({
            let subject = match user_name {
                Some(u) => u,
                None => "user"@,
            };
            regex_captures(rule_pattern(k), lowercase(text)) matches Some(caps) ==> forall|i: int|
                0 <= i < captures_facts(subject, rule_predicate(k), rule_confidence(k), caps).len()
                    ==> extraction(text, user_name).contains(
                    #[trigger] captures_facts(subject, rule_predicate(k), rule_confidence(k), caps)[i],
                )
        }),
{
    let subject = match user_name {
        Some(u) => u,
        None => "user"@,
    };
    lemma_rule_facts_kept(subject, lowercase(text), RULE_COUNT as int, k);
}

/// Every extracted fact is about the given user ("user" when none is
/// given), is marked inferred, comes from one of the rules with that
/// rule's confidence, and has an object that is not empty and not longer
/// than 50 characters, whatever the regular expressions matched.
pub proof fn law_extracted_facts_well_formed(text: Seq<char>, user_name: Option<Seq<char>>)
    ensures
        ({
            let subject = match user_name {
                Some(u) => u,
                None => "user"@,
            };
            forall|i: int|
                0 <= i < extraction(text, user_name).len() ==> well_extracted(
                    #[trigger] extraction(text, user_name)[i],
                    subject,
                )
        }),
{
    let subject = match user_name {
        Some(u) => u,
        None => "user"@,
    };
    lemma_rules_facts_well(subject, lowercase(text), RULE_COUNT as int);
}

} // verus!
