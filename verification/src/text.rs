//! The token source: the external wordpiece tokenizer and stopword list,
//! and the message parser that turns raw document bytes into text. The
//! stopword/length filter between them is the library's own and is exact:
//! it must act identically at index time and query time.

use vstd::prelude::*;

verus! {

broadcast use {
    vstd::seq_lib::group_seq_properties,
    vstd::string::axiom_spec_iter,
    vstd::string::next_postcondition,
};

/// The external wordpiece tokenizer.
#[verifier::external_type_specification]
#[verifier::external_body]
pub struct ExBertTokenizer(rust_tokenizers::tokenizer::BertTokenizer);

/// Relies on BertTokenizer::tokenize (via the Tokenizer trait): text to
/// surface tokens. What comes back depends on the loaded vocabulary, so the
/// logic downstream takes the tokens as they are.
#[verifier::external_body]
fn tokenize_text(tok: &rust_tokenizers::tokenizer::BertTokenizer, text: &str) -> Vec<String> {
    rust_tokenizers::tokenizer::Tokenizer::tokenize(tok, text)
}

/// Relies on Tokenizer::convert_tokens_to_ids: one vocabulary id for each
/// token, in order.
#[verifier::external_body]
fn tokens_to_ids(tok: &rust_tokenizers::tokenizer::BertTokenizer, tokens: &Vec<String>) -> (r:
    Vec<i64>)
    ensures
        r@.len() == tokens@.len(),
{
    rust_tokenizers::tokenizer::Tokenizer::convert_tokens_to_ids(tok, tokens.as_slice())
}

/// Relies on stopwords::Spark::stopwords: the English stopword list, when
/// the crate carries one.
#[verifier::external_body]
fn english_stopwords() -> Option<Vec<String>> {
    let words = <stopwords::Spark as stopwords::Stopwords>::stopwords(
        stopwords::Language::English,
    )?;
    Some(words.iter().map(|w: &&str| w.to_string()).collect())
}

/// Relies on mailparse::parse_mail, MailHeaderMap::get_first_header and
/// MailHeader::get_value (the Subject header, empty when absent), and
/// ParsedMail::get_body: one raw message split into subject and body text.
/// A message that does not parse yields nothing.
#[verifier::external_body]
fn parse_message(raw: &Vec<u8>) -> Option<(String, String)> {
    let mail = match mailparse::parse_mail(raw.as_slice()) {
        Ok(m) => m,
        Err(_) => {
            return None;
        },
    };
    let subject = match mailparse::MailHeaderMap::get_first_header(&mail.get_headers(), "Subject") {
        Some(h) => h.get_value(),
        None => String::new(),
    };
    match mail.get_body() {
        Ok(body) => Some((subject, body)),
        Err(_) => None,
    }
}

/// The characters of a string slice, in order.
pub fn chars_of(s: &str) -> (r: Vec<char>)
    ensures
        r@ == s@,
{
    let mut it = s.chars();
    let mut r: Vec<char> = Vec::new();
    loop
        invariant
            vstd::std_specs::iter::IteratorSpec::obeys_prophetic_iter_laws(&it),
            vstd::std_specs::iter::IteratorSpec::decrease(&it) is Some,
            r@ + vstd::std_specs::iter::IteratorSpec::remaining(&it) == s@,
        decreases vstd::std_specs::iter::IteratorSpec::decrease(&it)->0,
    {
        match it.next() {
            Some(c) => {
                r.push(c);
            },
            None => {
                proof {
                    assert(r@ =~= s@);
                }
                return r;
            },
        }
    }
}

fn char_count(s: &str) -> (n: usize)
    ensures
        n == s@.len(),
{
    chars_of(s).len()
}

/// Whether a surface token survives filtering: not a stopword, and longer
/// than one character.
pub open spec fn spec_keep(stops: Seq<Seq<char>>, t: Seq<char>) -> bool {
    !stops.contains(t) && t.len() > 1
}

pub open spec fn views_of(tokens: Seq<String>) -> Seq<Seq<char>> {
    tokens.map_values(|s: String| s@)
}

fn is_stop(stops: &Vec<String>, t: &String) -> (r: bool)
    ensures
        r == views_of(stops@).contains(t@),
{
    let n = stops.len();
    for i in 0..n
        invariant
            n == stops@.len(),
            forall|k: int| 0 <= k < i ==> views_of(stops@)[k] != t@,
    {
        if stops[i].eq(t) {
            proof {
                assert(views_of(stops@)[i as int] == t@);
            }
            return true;
        }
        proof {
            assert(views_of(stops@)[i as int] == stops@[i as int]@);
        }
    }
    proof {
        if views_of(stops@).contains(t@) {
            let k = choose|k: int|
                0 <= k < views_of(stops@).len() && views_of(stops@)[k] == t@;
        }
    }
    false
}

/// The stopword/length filter itself, over an explicit stopword list: each
/// surviving token is neither a stopword nor a single character, in order.
pub fn filter_with_stopwords(stops: &Vec<String>, tokens: Vec<String>) -> (r: Vec<String>)
    ensures
        views_of(r@) == views_of(tokens@).filter(
            |t: Seq<char>| spec_keep(views_of(stops@), t),
        ),
{
    let mut r: Vec<String> = Vec::new();
    let n = tokens.len();
    for j in 0..n
        invariant
            n == tokens@.len(),
            views_of(r@) == views_of(tokens@.take(j as int)).filter(
                |t: Seq<char>| spec_keep(views_of(stops@), t),
            ),
    {
        let tok = &tokens[j];
        let keep = !is_stop(stops, tok) && char_count(tok.as_str()) > 1;
        let ghost pre = r@;
        if keep {
            r.push(tok.clone());
        }
        proof {
            let p = |t: Seq<char>| spec_keep(views_of(stops@), t);
            reveal(Seq::filter);
            let tv = views_of(tokens@.take(j + 1));
            assert(tv =~= views_of(tokens@.take(j as int)).push(tokens@[j as int]@));
            assert(tv.drop_last() =~= views_of(tokens@.take(j as int)));
            assert(tv.last() == tokens@[j as int]@);
            assert(keep == p(tokens@[j as int]@));
            if keep {
                assert(views_of(r@) =~= views_of(pre).push(tokens@[j as int]@));
            } else {
                assert(views_of(r@) =~= views_of(pre));
            }
        }
    }
    proof {
        assert(views_of(tokens@.take(n as int)) =~= views_of(tokens@));
        assert(tokens@.take(n as int) =~= tokens@);
    }
    r
}

/// The tokenizer and stopword list together: the one token source both the
/// build and the query layer must share.
pub struct TokenSource {
    tokenizer: rust_tokenizers::tokenizer::BertTokenizer,
    stops: Vec<String>,
}

impl TokenSource {
    pub closed spec fn stop_seq(&self) -> Seq<Seq<char>> {
        views_of(self.stops@)
    }

    /// Pairs a loaded tokenizer with the English stopword list; nothing when
    /// the stopword crate has no such list.
    pub fn new(tokenizer: rust_tokenizers::tokenizer::BertTokenizer) -> (r: Option<TokenSource>)
    {
        match english_stopwords() {
            Some(stops) => Some(TokenSource { tokenizer, stops }),
            None => None,
        }
    }

    /// The stopword/length filter, applied to surface tokens in order.
    pub fn filter_tokens(&self, tokens: Vec<String>) -> (r: Vec<String>)
        ensures
            views_of(r@) == views_of(tokens@).filter(
                |t: Seq<char>| spec_keep(self.stop_seq(), t),
            ),
    {
        filter_with_stopwords(&self.stops, tokens)
    }

    /// Surface tokens of a query or document text, already filtered.
    pub fn tokenize_filtered(&self, text: &str) -> (r: Vec<String>)
        ensures
            forall|k: int|
                0 <= k < r@.len() ==> spec_keep(self.stop_seq(), (#[trigger] r@[k])@),
    {
        let toks = tokenize_text(&self.tokenizer, text);
        let ghost tv = views_of(toks@);
        let kept = self.filter_tokens(toks);
        proof {
            let p = |t: Seq<char>| spec_keep(self.stop_seq(), t);
            assert forall|k: int| 0 <= k < kept@.len() implies spec_keep(
                self.stop_seq(),
                (#[trigger] kept@[k])@,
            ) by {
                assert(views_of(kept@)[k] == kept@[k]@);
                tv.lemma_filter_pred(p, k);
            }
        }
        kept
    }

    /// Vocabulary ids of the surviving tokens, in order.
    pub fn to_ids(&self, tokens: &Vec<String>) -> (r: Vec<i64>)
        ensures
            r@.len() == tokens@.len(),
    {
        tokens_to_ids(&self.tokenizer, tokens)
    }

    /// The tokenize stage for one raw document: parse, tokenize subject and
    /// body, filter, and map to ids. A document that does not parse
    /// contributes an empty sequence rather than an error.
    pub fn document_tokens(&self, raw: &Vec<u8>) -> Vec<i64> {
        match parse_message(raw) {
            None => Vec::new(),
            Some((subject, body)) => {
                let mut toks = tokenize_text(&self.tokenizer, subject.as_str());
                let mut more = tokenize_text(&self.tokenizer, body.as_str());
                toks.append(&mut more);
                let kept = self.filter_tokens(toks);
                self.to_ids(&kept)
            },
        }
    }
}

} // verus!
