//! Exact token counts, from a BPE tokenizer that is loaded once and kept.
use crate::json::{
    contents_if_any, entries_of, find_member, has_only, is_false, is_text, is_unset, json_contents,
    json_parse, key_texts, member, object_entries, only_keys, parse_json, same_text, unset,
    values_of, JsonView,
};
use crate::text::{chars_of, word_count, words};
use vstd::prelude::*;

verus! {

/// The tokenizer of the `tokenizers` crate.
#[verifier::external_type_specification]
#[verifier::external_body]
pub struct ExTokenizer(tokenizers::Tokenizer);

/// The longest text that is encoded, in characters: with the patterns of a plain definition the
/// search for a match goes back no more than a few times for each character, and gives up after
/// ten million times.
pub const MAX_ENCODED_TEXT: usize = 500_000;

/// How many added tokens a plain definition has at most, and how many characters each.
pub const MAX_ADDED: usize = 1024;

/// All ids of the vocabulary of a plain definition are below this.
pub const ID_LIMIT: u64 = 0x8000_0000;

/// The patterns that texts are split by: those of the encodings cl100k, in two spellings, gpt2 and
/// o200k. None has one repetition inside another, and in each of their alternatives no more than
/// one repetition stands before a part that can fail.
pub open spec fn is_known_pattern(s: Seq<char>) -> bool {
    ||| s == "(?i:'s|'t|'re|'ve|'m|'ll|'d)|[^\\r\\n\\p{L}\\p{N}]?\\p{L}+|\\p{N}{1,3}| ?[^\\s\\p{L}\\p{N}]+[\\r\\n]*|\\s*[\\r\\n]+|\\s+(?!\\S)|\\s+"@
    ||| s == "'(?i:[sdmt]|ll|ve|re)|[^\\r\\n\\p{L}\\p{N}]?+\\p{L}+|\\p{N}{1,3}| ?[^\\s\\p{L}\\p{N}]++[\\r\\n]*|\\s*[\\r\\n]|\\s+(?!\\S)|\\s+"@
    ||| s == "'s|'t|'re|'ve|'m|'ll|'d| ?\\p{L}+| ?\\p{N}+| ?[^\\s\\p{L}\\p{N}]+|\\s+(?!\\S)|\\s+"@
    ||| s == "[^\\r\\n\\p{L}\\p{N}]?[\\p{Lu}\\p{Lt}\\p{Lm}\\p{Lo}\\p{M}]*[\\p{Ll}\\p{Lm}\\p{Lo}\\p{M}]+(?i:'s|'t|'re|'ve|'m|'ll|'d)?|[^\\r\\n\\p{L}\\p{N}]?[\\p{Lu}\\p{Lt}\\p{Lm}\\p{Lo}\\p{M}]+[\\p{Ll}\\p{Lm}\\p{Lo}\\p{M}]*(?i:'s|'t|'re|'ve|'m|'ll|'d)?|\\p{N}{1,3}| ?[^\\s\\p{L}\\p{N}]+[\\r\\n/]*|\\s*[\\r\\n]+|\\s+(?!\\S)|\\s+"@
}

/// Whether an entry is a byte-level step with nothing but its own settings.
pub open spec fn is_byte_level(v: JsonView) -> bool {
    &&& member(v, "type"@) == Some(JsonView::Text("ByteLevel"@))
    &&& has_only(v, seq!["type"@, "add_prefix_space"@, "trim_offsets"@, "use_regex"@])
}

/// Whether a pattern is one of the known patterns.
pub open spec fn is_plain_pattern(v: Option<JsonView>) -> bool {
    match v {
        Some(p) => has_only(p, seq!["Regex"@]) && (member(p, "Regex"@) matches Some(
            JsonView::Text(s),
        ) && is_known_pattern(s)),
        None => false,
    }
}

/// Whether a text is split by a known pattern.
pub open spec fn is_plain_split(v: JsonView) -> bool {
    &&& member(v, "type"@) == Some(JsonView::Text("Split"@))
    &&& has_only(v, seq!["type"@, "pattern"@, "behavior"@, "invert"@])
    &&& is_plain_pattern(member(v, "pattern"@))
    &&& member(v, "behavior"@) == Some(JsonView::Text("Isolated"@)) || member(v, "behavior"@)
        == Some(JsonView::Text("Removed"@))
}

/// Whether a text is split at white space.
pub open spec fn is_white_space_split(v: JsonView) -> bool {
    &&& has_only(v, seq!["type"@])
    &&& member(v, "type"@) == Some(JsonView::Text("Whitespace"@)) || member(v, "type"@) == Some(
        JsonView::Text("WhitespaceSplit"@),
    )
}

/// Whether a step that splits texts is plain; only the last one may map bytes to characters, and
/// it adds none.
pub open spec fn is_plain_step(v: JsonView, last: bool) -> bool {
    ||| is_white_space_split(v)
    ||| is_plain_split(v)
    ||| last && is_byte_level(v) && member(v, "add_prefix_space"@) == Some(JsonView::Bool(false))
}

/// Whether all steps are plain.
pub open spec fn are_plain_steps(items: Seq<JsonView>) -> bool {
    forall|i: int|
        0 <= i < items.len() ==> is_plain_step(#[trigger] items[i], i == items.len() - 1)
}

/// Whether texts are split in plain steps: one, or several in a row.
pub open spec fn is_plain_splitter(v: JsonView) -> bool {
    ||| is_plain_step(v, true)
    ||| {
        &&& member(v, "type"@) == Some(JsonView::Text("Sequence"@))
        &&& has_only(v, seq!["type"@, "pretokenizers"@])
        &&& member(v, "pretokenizers"@) matches Some(JsonView::Array(items)) && are_plain_steps(
            items,
        )
    }
}

/// Whether an added token matches as it is written: neither normalized, nor with the white space
/// around it, nor only as a word.
pub open spec fn is_plain_token(v: JsonView) -> bool {
    &&& member(v, "normalized"@) == Some(JsonView::Bool(false))
    &&& member(v, "lstrip"@) == Some(JsonView::Bool(false))
    &&& member(v, "rstrip"@) == Some(JsonView::Bool(false))
    &&& member(v, "single_word"@) == Some(JsonView::Bool(false))
    &&& member(v, "content"@) matches Some(JsonView::Text(s)) && s.len() <= MAX_ADDED
}

/// Whether all added tokens are plain, and not too many.
pub open spec fn are_plain_tokens(items: Seq<JsonView>) -> bool {
    &&& items.len() <= MAX_ADDED
    &&& forall|i: int| 0 <= i < items.len() ==> is_plain_token(#[trigger] items[i])
}

/// Whether all ids of a vocabulary are below the limit.
pub open spec fn are_plain_ids(entries: Seq<(Seq<char>, JsonView)>) -> bool {
    forall|i: int| 0 <= i < entries.len() ==> is_plain_id((#[trigger] entries[i]).1)
}

/// Whether an id is below the limit.
pub open spec fn is_plain_id(v: JsonView) -> bool {
    v matches JsonView::Number(Some(n), _) && n < ID_LIMIT
}

/// Whether a model is a plain BPE model, which neither marks the places of tokens in a word nor
/// falls back to bytes, or one that knows whole words only.
pub open spec fn is_plain_model(v: JsonView) -> bool {
    &&& member(v, "vocab"@) matches Some(JsonView::Object(entries)) && are_plain_ids(entries)
    &&& {
        ||| member(v, "type"@) == Some(JsonView::Text("WordLevel"@))
        ||| {
            &&& member(v, "type"@) == Some(JsonView::Text("BPE"@))
            &&& is_unset(member(v, "continuing_subword_prefix"@))
            &&& is_unset(member(v, "end_of_word_suffix"@))
            &&& is_unset(member(v, "byte_fallback"@)) || member(v, "byte_fallback"@) == Some(
                JsonView::Bool(false),
            )
        }
    }
}

/// Whether a definition asks for a model with merge dropout, whose results are random.
pub open spec fn definition_has_dropout(definition: JsonView) -> bool {
    match member(definition, "model"@) {
        Some(model) => !is_unset(member(model, "dropout"@)),
        None => false,
    }
}

/// Whether a definition asks for encodings to be cut off at a length.
pub open spec fn definition_truncates(definition: JsonView) -> bool {
    !is_unset(member(definition, "truncation"@))
}

/// Whether a definition asks for encodings to be filled up to a length.
pub open spec fn definition_pads(definition: JsonView) -> bool {
    !is_unset(member(definition, "padding"@))
}

/// Whether nothing changes the texts before they are split.
pub open spec fn is_unchanging(definition: JsonView) -> bool {
    is_unset(member(definition, "normalizer"@))
}

/// Whether the texts are split plainly.
pub open spec fn splits_plainly(definition: JsonView) -> bool {
    match member(definition, "pre_tokenizer"@) {
        Some(v) => v is Null || is_plain_splitter(v),
        None => true,
    }
}

/// Whether the added tokens are plain.
pub open spec fn adds_plainly(definition: JsonView) -> bool {
    match member(definition, "added_tokens"@) {
        Some(JsonView::Array(items)) => are_plain_tokens(items),
        Some(_) => false,
        None => true,
    }
}

/// Whether what follows the encoding is nothing, or a byte-level step.
pub open spec fn ends_plainly(definition: JsonView, key: Seq<char>) -> bool {
    match member(definition, key) {
        Some(v) => v is Null || is_byte_level(v),
        None => true,
    }
}

/// Whether the model is plain.
pub open spec fn models_plainly(definition: JsonView) -> bool {
    match member(definition, "model"@) {
        Some(v) => is_plain_model(v),
        None => false,
    }
}

/// Whether a definition is of the kind that can be counted with: a plain model over texts that
/// nothing changes and that are split in plain steps.
pub open spec fn is_plain_definition(definition: JsonView) -> bool {
    &&& is_unchanging(definition)
    &&& splits_plainly(definition)
    &&& adds_plainly(definition)
    &&& ends_plainly(definition, "post_processor"@)
    &&& ends_plainly(definition, "decoder"@)
    &&& models_plainly(definition)
}

/// Whether a tokenizer with a definition counts exactly: the definition is plain, and nothing is
/// dropped at random, cut off or filled up.
pub open spec fn definition_counts(definition: JsonView) -> bool {
    &&& !definition_has_dropout(definition)
    &&& !definition_truncates(definition)
    &&& !definition_pads(definition)
    &&& is_plain_definition(definition)
}

/// The JSON definition (vocabulary, merges, splitting rules) that a tokenizer holds.
pub uninterp spec fn tokenizer_definition(t: tokenizers::Tokenizer) -> JsonView;

/// Whether `Tokenizer::from_bytes` accepts a definition.
pub uninterp spec fn definition_loads(definition: JsonView) -> bool;

/// How many token ids `Tokenizer::encode` gives a text, without special tokens; `None` where it
/// fails.
pub uninterp spec fn encoded_length(definition: JsonView, text: Seq<char>) -> Option<usize>;

/// `tokenizers::Tokenizer::from_bytes` loads a definition, here from the text that
/// `ToString::to_string` gives of a JSON value, in which no key stands twice. Which definitions it
/// accepts is named, not described; the tokenizer that it gives holds the definition that it was
/// given.
#[verifier::external_body]
fn load_definition(definition: &serde_json::Value) -> (r: Option<tokenizers::Tokenizer>)
    requires
        definition_counts(json_contents(*definition)),
    ensures
        (r is Some) == definition_loads(json_contents(*definition)),
        r matches Some(t) ==> tokenizer_definition(t) == json_contents(*definition),
{
    tokenizers::Tokenizer::from_bytes(definition.to_string()).ok()
}

/// `tokenizers::TokenizerImpl::encode` tokenizes a text. With a definition that counts, the number
/// of ids depends on the definition and the text alone; it is named, not described. The text is
/// short enough for its pattern never to be given up.
#[verifier::external_body]
fn encode_length(t: &tokenizers::Tokenizer, text: &str) -> (r: Option<usize>)
    requires
        definition_counts(tokenizer_definition(*t)),
        text@.len() <= MAX_ENCODED_TEXT,
    ensures
        r == encoded_length(tokenizer_definition(*t), text@),
{
    match t.encode(text, false) {
        Ok(encoding) => Some(encoding.get_ids().len()),
        Err(_) => None,
    }
}

fn known_pattern(s: &str) -> (r: bool)
    ensures
        r == is_known_pattern(s@),
{
    same_text(s, "(?i:'s|'t|'re|'ve|'m|'ll|'d)|[^\\r\\n\\p{L}\\p{N}]?\\p{L}+|\\p{N}{1,3}| ?[^\\s\\p{L}\\p{N}]+[\\r\\n]*|\\s*[\\r\\n]+|\\s+(?!\\S)|\\s+")
        || same_text(s, "'(?i:[sdmt]|ll|ve|re)|[^\\r\\n\\p{L}\\p{N}]?+\\p{L}+|\\p{N}{1,3}| ?[^\\s\\p{L}\\p{N}]++[\\r\\n]*|\\s*[\\r\\n]|\\s+(?!\\S)|\\s+")
        || same_text(s, "'s|'t|'re|'ve|'m|'ll|'d| ?\\p{L}+| ?\\p{N}+| ?[^\\s\\p{L}\\p{N}]+|\\s+(?!\\S)|\\s+")
        || same_text(s, "[^\\r\\n\\p{L}\\p{N}]?[\\p{Lu}\\p{Lt}\\p{Lm}\\p{Lo}\\p{M}]*[\\p{Ll}\\p{Lm}\\p{Lo}\\p{M}]+(?i:'s|'t|'re|'ve|'m|'ll|'d)?|[^\\r\\n\\p{L}\\p{N}]?[\\p{Lu}\\p{Lt}\\p{Lm}\\p{Lo}\\p{M}]+[\\p{Ll}\\p{Lm}\\p{Lo}\\p{M}]*(?i:'s|'t|'re|'ve|'m|'ll|'d)?|\\p{N}{1,3}| ?[^\\s\\p{L}\\p{N}]+[\\r\\n/]*|\\s*[\\r\\n]+|\\s+(?!\\S)|\\s+")
}

fn byte_level(v: &serde_json::Value) -> (r: bool)
    ensures
        r == is_byte_level(json_contents(*v)),
{
    let keys: [&str; 4] = ["type", "add_prefix_space", "trim_offsets", "use_regex"];
    assert(key_texts(keys@) =~= seq!["type"@, "add_prefix_space"@, "trim_offsets"@, "use_regex"@]);
    is_text(find_member(v, "type"), "ByteLevel") && only_keys(v, &keys)
}

fn plain_pattern(v: Option<&serde_json::Value>) -> (r: bool)
    ensures
        r == is_plain_pattern(contents_if_any(v)),
{
    match v {
        Some(p) => {
            let keys: [&str; 1] = ["Regex"];
            assert(key_texts(keys@) =~= seq!["Regex"@]);
            if !only_keys(p, &keys) {
                return false;
            }
            match find_member(p, "Regex") {
                Some(s) => match s.as_str() {
                    Some(s) => known_pattern(s),
                    None => false,
                },
                None => false,
            }
        },
        None => false,
    }
}

fn plain_split(v: &serde_json::Value) -> (r: bool)
    ensures
        r == is_plain_split(json_contents(*v)),
{
    let keys: [&str; 4] = ["type", "pattern", "behavior", "invert"];
    assert(key_texts(keys@) =~= seq!["type"@, "pattern"@, "behavior"@, "invert"@]);
    is_text(find_member(v, "type"), "Split") && only_keys(v, &keys) && plain_pattern(
        find_member(v, "pattern"),
    ) && (is_text(find_member(v, "behavior"), "Isolated") || is_text(
        find_member(v, "behavior"),
        "Removed",
    ))
}

fn white_space_split(v: &serde_json::Value) -> (r: bool)
    ensures
        r == is_white_space_split(json_contents(*v)),
{
    let keys: [&str; 1] = ["type"];
    assert(key_texts(keys@) =~= seq!["type"@]);
    only_keys(v, &keys) && (is_text(find_member(v, "type"), "Whitespace") || is_text(
        find_member(v, "type"),
        "WhitespaceSplit",
    ))
}

fn plain_step(v: &serde_json::Value, last: bool) -> (r: bool)
    ensures
        r == is_plain_step(json_contents(*v), last),
{
    white_space_split(v) || plain_split(v) || (last && byte_level(v) && is_false(
        find_member(v, "add_prefix_space"),
    ))
}

fn plain_steps(items: &[serde_json::Value]) -> (r: bool)
    ensures
        r == are_plain_steps(values_of(items@)),
{
    let ghost all = values_of(items@);
    let mut i: usize = 0;
    while i < items.len()
        invariant
            i <= items@.len(),
            all == values_of(items@),
            forall|j: int|
                0 <= j < i ==> is_plain_step(#[trigger] all[j], j == all.len() - 1),
        decreases items@.len() - i,
    {
        if !plain_step(&items[i], i == items.len() - 1) {
            assert(!is_plain_step(all[i as int], i == all.len() - 1));
            return false;
        }
        i = i + 1;
    }
    true
}

fn plain_splitter(v: &serde_json::Value) -> (r: bool)
    ensures
        r == is_plain_splitter(json_contents(*v)),
{
    if plain_step(v, true) {
        return true;
    }
    let keys: [&str; 2] = ["type", "pretokenizers"];
    assert(key_texts(keys@) =~= seq!["type"@, "pretokenizers"@]);
    if !is_text(find_member(v, "type"), "Sequence") || !only_keys(v, &keys) {
        return false;
    }
    match find_member(v, "pretokenizers") {
        Some(steps) => match steps.as_array() {
            Some(items) => plain_steps(items),
            None => false,
        },
        None => false,
    }
}

fn plain_token(v: &serde_json::Value) -> (r: bool)
    ensures
        r == is_plain_token(json_contents(*v)),
{
    if !is_false(find_member(v, "normalized")) || !is_false(find_member(v, "lstrip")) || !is_false(
        find_member(v, "rstrip"),
    ) || !is_false(find_member(v, "single_word")) {
        return false;
    }
    match find_member(v, "content") {
        Some(content) => match content.as_str() {
            Some(s) => chars_of(s).len() <= MAX_ADDED,
            None => false,
        },
        None => false,
    }
}

fn plain_tokens(items: &[serde_json::Value]) -> (r: bool)
    ensures
        r == are_plain_tokens(values_of(items@)),
{
    let ghost all = values_of(items@);
    if items.len() > MAX_ADDED {
        return false;
    }
    let mut i: usize = 0;
    while i < items.len()
        invariant
            i <= items@.len(),
            all == values_of(items@),
            all.len() <= MAX_ADDED,
            forall|j: int| 0 <= j < i ==> is_plain_token(#[trigger] all[j]),
        decreases items@.len() - i,
    {
        if !plain_token(&items[i]) {
            assert(!is_plain_token(all[i as int]));
            return false;
        }
        i = i + 1;
    }
    true
}

fn plain_ids(entries: &[(&String, &serde_json::Value)]) -> (r: bool)
    ensures
        r == are_plain_ids(entries_of(entries@)),
{
    let ghost all = entries_of(entries@);
    let mut i: usize = 0;
    while i < entries.len()
        invariant
            i <= entries@.len(),
            all == entries_of(entries@),
            forall|j: int| 0 <= j < i ==> is_plain_id((#[trigger] all[j]).1),
        decreases entries@.len() - i,
    {
        let below: bool = match entries[i].1.as_u64() {
            Some(n) => n < ID_LIMIT,
            None => false,
        };
        if !below {
            assert(!is_plain_id(all[i as int].1));
            return false;
        }
        i = i + 1;
    }
    true
}

fn plain_model(v: &serde_json::Value) -> (r: bool)
    ensures
        r == is_plain_model(json_contents(*v)),
{
    let ids: bool = match find_member(v, "vocab") {
        Some(vocab) => match object_entries(vocab) {
            Some(entries) => plain_ids(&entries),
            None => false,
        },
        None => false,
    };
    if !ids {
        return false;
    }
    if is_text(find_member(v, "type"), "WordLevel") {
        return true;
    }
    is_text(find_member(v, "type"), "BPE") && unset(
        find_member(v, "continuing_subword_prefix"),
    ) && unset(find_member(v, "end_of_word_suffix")) && (unset(find_member(v, "byte_fallback"))
        || is_false(find_member(v, "byte_fallback")))
}

fn has_plain_end(definition: &serde_json::Value, key: &str) -> (r: bool)
    ensures
        r == ends_plainly(json_contents(*definition), key@),
{
    match find_member(definition, key) {
        Some(v) => v.is_null() || byte_level(v),
        None => true,
    }
}

fn plain_definition(definition: &serde_json::Value) -> (r: bool)
    ensures
        r == is_plain_definition(json_contents(*definition)),
{
    let splits: bool = match find_member(definition, "pre_tokenizer") {
        Some(v) => v.is_null() || plain_splitter(v),
        None => true,
    };
    let adds: bool = match find_member(definition, "added_tokens") {
        Some(v) => match v.as_array() {
            Some(items) => plain_tokens(items),
            None => false,
        },
        None => true,
    };
    let models: bool = match find_member(definition, "model") {
        Some(v) => plain_model(v),
        None => false,
    };
    unset(find_member(definition, "normalizer")) && splits && adds && has_plain_end(
        definition,
        "post_processor",
    ) && has_plain_end(definition, "decoder") && models
}

/// Why a tokenizer definition cannot be used.
#[derive(Debug, Clone, Copy, PartialEq, Eq, Structural)]
pub enum DefinitionError {
    /// It is no tokenizer definition.
    Malformed,
    /// Its model drops merges at random, so that no count would be exact.
    Dropout,
    /// It cuts encodings off at a length.
    Truncation,
    /// It fills encodings up to a length.
    Padding,
    /// It is of a kind that is not counted with.
    Unsupported,
}

/// A tokenizer that counts the tokens of texts.
pub struct TokenCounter {
    tokenizer: tokenizers::Tokenizer,
}

impl TokenCounter {
    /// The definition that the counter was made from.
    pub closed spec fn definition(&self) -> JsonView {
        tokenizer_definition(self.tokenizer)
    }

    #[verifier::type_invariant]
    closed spec fn is_exact(&self) -> bool {
        definition_counts(tokenizer_definition(self.tokenizer))
    }

    /// Makes a counter from a JSON definition.
    pub fn from_definition(definition: &[u8]) -> (r: Result<TokenCounter, DefinitionError>)
        ensures
            match json_parse(definition@) {
                None => r matches Err(DefinitionError::Malformed),
                Some(v) => if definition_has_dropout(v) {
                    r matches Err(DefinitionError::Dropout)
                } else if definition_truncates(v) {
                    r matches Err(DefinitionError::Truncation)
                } else if definition_pads(v) {
                    r matches Err(DefinitionError::Padding)
                } else if !is_plain_definition(v) {
                    r matches Err(DefinitionError::Unsupported)
                } else if !definition_loads(v) {
                    r matches Err(DefinitionError::Malformed)
                } else {
                    r matches Ok(counter) && counter.definition() == v
                },
            },
    {
        let v: serde_json::Value = match parse_json(definition) {
            Some(v) => v,
            None => {
                return Err(DefinitionError::Malformed);
            },
        };
        let dropout: bool = match find_member(&v, "model") {
            Some(model) => !unset(find_member(model, "dropout")),
            None => false,
        };
        if dropout {
            return Err(DefinitionError::Dropout);
        }
        if !unset(find_member(&v, "truncation")) {
            return Err(DefinitionError::Truncation);
        }
        if !unset(find_member(&v, "padding")) {
            return Err(DefinitionError::Padding);
        }
        if !plain_definition(&v) {
            return Err(DefinitionError::Unsupported);
        }
        match load_definition(&v) {
            Some(tokenizer) => Ok(TokenCounter { tokenizer }),
            None => Err(DefinitionError::Malformed),
        }
    }
}

/// How many tokens a text has, given what its encoding came to: nothing has none, and where there
/// is no encoding the words are counted instead.
pub open spec fn counted_tokens(text: Seq<char>, encoded: Option<usize>) -> nat {
    if text.len() == 0 {
        0
    } else {
        match encoded {
            Some(n) => n as nat,
            None => word_count(text),
        }
    }
}

/// What the encoding of a text comes to: nothing where it fails or the text is too long for it.
pub open spec fn encoding_of(definition: JsonView, text: Seq<char>) -> Option<usize> {
    if text.len() <= MAX_ENCODED_TEXT {
        encoded_length(definition, text)
    } else {
        None
    }
}

/// How many tokens a text has under a definition.
pub open spec fn token_count(definition: JsonView, text: Seq<char>) -> nat {
    counted_tokens(text, encoding_of(definition, text))
}

/// The token count of a text whose encoding came to `encoded` ids, or failed.
pub fn count_from_encoding(text: &str, encoded: Option<usize>) -> (n: usize)
    ensures
        n == counted_tokens(text@, encoded),
{
    if text.is_empty() {
        return 0;
    }
    match encoded {
        Some(n) => n,
        None => {
            let chars: Vec<char> = chars_of(text);
            words(chars.as_slice())
        },
    }
}

/// The exact number of tokens of a text.
pub fn get_exact_token_count(counter: &TokenCounter, text: &str) -> (n: usize)
    ensures
        n == token_count(counter.definition(), text@),
{
    proof {
        use_type_invariant(counter);
    }
    if text.is_empty() {
        return 0;
    }
    let encoded: Option<usize> = if chars_of(text).len() <= MAX_ENCODED_TEXT {
        encode_length(&counter.tokenizer, text)
    } else {
        None
    };
    count_from_encoding(text, encoded)
}

/// A text counts the tokens that it is encoded to; where it fails to be, or is longer than half a
/// million characters, its words count; and a text without characters counts nothing.
pub proof fn law_tokens_are_counted(definition: JsonView, text: Seq<char>)
    ensures
        text.len() == 0 ==> token_count(definition, text) == 0,
        0 < text.len() <= 500_000 ==> token_count(definition, text) == match encoded_length(
            definition,
            text,
        ) {
            Some(n) => n as nat,
            None => word_count(text),
        },
        text.len() > 500_000 ==> token_count(definition, text) == word_count(text),
{
}

/// Texts are split at white space or by one of four patterns, alone or one behind the other; bytes
/// are mapped to characters at the end or not at all, and without adding a space.
pub proof fn law_ways_to_split(
    definition: JsonView,
    first: Seq<JsonView>,
    last: JsonView,
    s: Seq<char>,
)
    ensures
        ({
            let way = member(definition, "pre_tokenizer"@);
            let kind = member(last, "type"@);
            &&& way is None ==> splits_plainly(definition)
            &&& way == Some(JsonView::Null) ==> splits_plainly(definition)
            &&& way == Some(last) && kind == Some(JsonView::Text("Whitespace"@)) ==> (
            splits_plainly(definition) == has_only(last, seq!["type"@]))
            &&& way == Some(last) && kind == Some(JsonView::Text("WhitespaceSplit"@)) ==> (
            splits_plainly(definition) == has_only(last, seq!["type"@]))
            &&& way == Some(last) && kind == Some(JsonView::Text("ByteLevel"@)) ==> (splits_plainly(
                definition,
            ) == (has_only(
                last,
                seq!["type"@, "add_prefix_space"@, "trim_offsets"@, "use_regex"@],
            ) && member(last, "add_prefix_space"@) == Some(JsonView::Bool(false))))
            &&& way == Some(last) && kind == Some(JsonView::Text("Split"@)) ==> (splits_plainly(
                definition,
            ) == (has_only(last, seq!["type"@, "pattern"@, "behavior"@, "invert"@]) && (
            member(last, "behavior"@) == Some(JsonView::Text("Isolated"@)) || member(
                last,
                "behavior"@,
            ) == Some(JsonView::Text("Removed"@))) && is_plain_pattern(member(last, "pattern"@))))
            &&& way == Some(last) && kind == Some(JsonView::Text("Sequence"@)) ==> (splits_plainly(
                definition,
            ) == (has_only(last, seq!["type"@, "pretokenizers"@]) && match member(
                last,
                "pretokenizers"@,
            ) {
                Some(JsonView::Array(items)) => are_plain_steps(items),
                _ => false,
            }))
            &&& way == Some(last) && splits_plainly(definition) ==> last is Null || kind == Some(
                JsonView::Text("Whitespace"@),
            ) || kind == Some(JsonView::Text("WhitespaceSplit"@)) || kind == Some(
                JsonView::Text("ByteLevel"@),
            ) || kind == Some(JsonView::Text("Split"@)) || kind == Some(
                JsonView::Text("Sequence"@),
            )
        }),
        is_plain_pattern(
            Some(JsonView::Object(seq![("Regex"@, JsonView::Text(s))])),
        ) == is_known_pattern(s),
        is_known_pattern(s) == (s == "(?i:'s|'t|'re|'ve|'m|'ll|'d)|[^\\r\\n\\p{L}\\p{N}]?\\p{L}+|\\p{N}{1,3}| ?[^\\s\\p{L}\\p{N}]+[\\r\\n]*|\\s*[\\r\\n]+|\\s+(?!\\S)|\\s+"@ || s == "'(?i:[sdmt]|ll|ve|re)|[^\\r\\n\\p{L}\\p{N}]?+\\p{L}+|\\p{N}{1,3}| ?[^\\s\\p{L}\\p{N}]++[\\r\\n]*|\\s*[\\r\\n]|\\s+(?!\\S)|\\s+"@ || s == "'s|'t|'re|'ve|'m|'ll|'d| ?\\p{L}+| ?\\p{N}+| ?[^\\s\\p{L}\\p{N}]+|\\s+(?!\\S)|\\s+"@ || s == "[^\\r\\n\\p{L}\\p{N}]?[\\p{Lu}\\p{Lt}\\p{Lm}\\p{Lo}\\p{M}]*[\\p{Ll}\\p{Lm}\\p{Lo}\\p{M}]+(?i:'s|'t|'re|'ve|'m|'ll|'d)?|[^\\r\\n\\p{L}\\p{N}]?[\\p{Lu}\\p{Lt}\\p{Lm}\\p{Lo}\\p{M}]+[\\p{Ll}\\p{Lm}\\p{Lo}\\p{M}]*(?i:'s|'t|'re|'ve|'m|'ll|'d)?|\\p{N}{1,3}| ?[^\\s\\p{L}\\p{N}]+[\\r\\n/]*|\\s*[\\r\\n]+|\\s+(?!\\S)|\\s+"@),
        are_plain_steps(Seq::empty()),
        are_plain_steps(first.push(last)) == (is_plain_step(last, true) && forall|i: int|
            0 <= i < first.len() ==> is_plain_step(#[trigger] first[i], false)),
        is_plain_step(last, false) ==> is_plain_step(last, true) && member(last, "type"@) != Some(
            JsonView::Text("ByteLevel"@),
        ),
{
    lemma_kinds_differ();
    let entries = seq![("Regex"@, JsonView::Text(s))];
    assert(entries[0].0 == "Regex"@);
    assert(seq!["Regex"@][0] == "Regex"@);
    assert(seq!["Regex"@].contains("Regex"@));
    assert(has_only(JsonView::Object(entries), seq!["Regex"@]));
    let all = first.push(last);
    if are_plain_steps(all) {
        assert(all[first.len() as int] == last);
        assert forall|i: int| 0 <= i < first.len() implies is_plain_step(
            #[trigger] first[i],
            false,
        ) by {
            assert(all[i] == first[i]);
        }
    }
}

proof fn lemma_kinds_differ()
    ensures
        "Whitespace"@ != "ByteLevel"@,
        "WhitespaceSplit"@ != "ByteLevel"@,
        "Split"@ != "ByteLevel"@,
        "Sequence"@ != "ByteLevel"@,
        "Whitespace"@ != "Split"@,
        "WhitespaceSplit"@ != "Split"@,
        "Sequence"@ != "Split"@,
        "Sequence"@ != "Whitespace"@,
        "Sequence"@ != "WhitespaceSplit"@,
        "BPE"@ != "WordLevel"@,
{
    reveal_strlit("Whitespace");
    reveal_strlit("WhitespaceSplit");
    reveal_strlit("ByteLevel");
    reveal_strlit("Split");
    reveal_strlit("Sequence");
    reveal_strlit("BPE");
    reveal_strlit("WordLevel");
    assert("Whitespace"@.len() == 10);
    assert("WhitespaceSplit"@.len() == 15);
    assert("ByteLevel"@.len() == 9);
    assert("Split"@.len() == 5);
    assert("Sequence"@.len() == 8);
    assert("BPE"@.len() == 3);
    assert("WordLevel"@.len() == 9);
}

/// Added tokens are plain one by one, up to 1024 of them: each is matched as it is written and has
/// up to 1024 characters. Ids are plain one by one: each is a whole number below two to the 31st.
pub proof fn law_plain_tokens(
    first: Seq<JsonView>,
    second: Seq<JsonView>,
    token: JsonView,
    ids: Seq<(Seq<char>, JsonView)>,
    more_ids: Seq<(Seq<char>, JsonView)>,
    id: (Seq<char>, JsonView),
)
    ensures
        are_plain_tokens(Seq::empty()),
        are_plain_tokens(first + second) == (are_plain_tokens(first) && are_plain_tokens(second)
            && first.len() + second.len() <= 1024),
        are_plain_tokens(seq![token]) == ((forall|key: Seq<char>|
            key == "normalized"@ || key == "lstrip"@ || key == "rstrip"@ || key == "single_word"@
                ==> #[trigger] member(token, key) == Some(JsonView::Bool(false))) && match member(
            token,
            "content"@,
        ) {
            Some(JsonView::Text(s)) => s.len() <= 1024,
            _ => false,
        }),
        are_plain_ids(Seq::empty()),
        are_plain_ids(ids + more_ids) == (are_plain_ids(ids) && are_plain_ids(more_ids)),
        are_plain_ids(seq![id]) == match id.1 {
            JsonView::Number(Some(n), _) => n < 2_147_483_648,
            _ => false,
        },
{
    let all = first + second;
    assert(seq![token][0] == token);
    assert(seq![id][0] == id);
    if are_plain_tokens(all) {
        assert forall|i: int| 0 <= i < first.len() implies is_plain_token(#[trigger] first[i]) by {
            assert(all[i] == first[i]);
        }
        assert forall|i: int| 0 <= i < second.len() implies is_plain_token(
            #[trigger] second[i],
        ) by {
            assert(all[i + first.len()] == second[i]);
        }
    }
    let every = ids + more_ids;
    if are_plain_ids(every) {
        assert forall|i: int| 0 <= i < ids.len() implies is_plain_id((#[trigger] ids[i]).1) by {
            assert(every[i] == ids[i]);
        }
        assert forall|i: int| 0 <= i < more_ids.len() implies is_plain_id(
            (#[trigger] more_ids[i]).1,
        ) by {
            assert(every[i + ids.len()] == more_ids[i]);
        }
    }
}

/// A definition is counted with if each of its parts is plain, and it is no matter what else it
/// holds: what would drop, cut off, fill up or change anything is missing or null, the model has a
/// vocabulary of plain ids and is of one of two kinds.
pub proof fn law_definitions_that_count(definition: JsonView)
    ensures
        ({
            let model = member(definition, "model"@);
            let kind = member(model->Some_0, "type"@);
            let vocabulary = member(model->Some_0, "vocab"@);
            &&& definition_counts(definition) ==> {
                &&& forall|key: Seq<char>|
                    key == "truncation"@ || key == "padding"@ || key == "normalizer"@ ==> (
                    #[trigger] member(definition, key) is None || member(definition, key) == Some(
                        JsonView::Null,
                    ))
                &&& model is Some
                &&& vocabulary is Some
                &&& vocabulary->Some_0 is Object
                &&& are_plain_ids(vocabulary->Some_0->Object_0)
                &&& kind == Some(JsonView::Text("BPE"@)) || kind == Some(
                    JsonView::Text("WordLevel"@),
                )
                &&& member(model->Some_0, "dropout"@) is None || member(
                    model->Some_0,
                    "dropout"@,
                ) == Some(JsonView::Null)
                &&& splits_plainly(definition)
                &&& member(definition, "added_tokens"@) matches Some(o) ==> o is Array
                    && are_plain_tokens(o->Array_0)
                &&& kind == Some(JsonView::Text("BPE"@)) ==> forall|key: Seq<char>|
                    key == "continuing_subword_prefix"@ || key == "end_of_word_suffix"@ ==> (
                    #[trigger] member(model->Some_0, key) is None || member(model->Some_0, key)
                        == Some(JsonView::Null))
                &&& kind == Some(JsonView::Text("BPE"@)) ==> (member(
                    model->Some_0,
                    "byte_fallback"@,
                ) matches Some(o) ==> o == JsonView::Null || o == JsonView::Bool(false))
            }
            &&& vocabulary is Some && vocabulary->Some_0 is Object && are_plain_ids(
                vocabulary->Some_0->Object_0,
            ) && model is Some && kind == Some(JsonView::Text("WordLevel"@)) && (forall|
                key: Seq<char>,
            |
                key != "model"@ ==> #[trigger] member(definition, key) is None) && member(
                model->Some_0,
                "dropout"@,
            ) is None ==> definition_counts(definition)
            &&& vocabulary is Some && vocabulary->Some_0 is Object && are_plain_ids(
                vocabulary->Some_0->Object_0,
            ) && model is Some && kind == Some(JsonView::Text("BPE"@)) && (forall|
                key: Seq<char>,
            |
                key != "model"@ ==> #[trigger] member(definition, key) is None) && (forall|
                key: Seq<char>,
            |
                key != "type"@ && key != "vocab"@ ==> #[trigger] member(model->Some_0, key) is None)
                ==> definition_counts(definition)
        }),
{
    lemma_kinds_differ();
    lemma_keys_differ();
}

proof fn lemma_keys_differ()
    ensures
        "truncation"@ != "model"@,
        "padding"@ != "model"@,
        "normalizer"@ != "model"@,
        "pre_tokenizer"@ != "model"@,
        "added_tokens"@ != "model"@,
        "post_processor"@ != "model"@,
        "decoder"@ != "model"@,
        "dropout"@ != "type"@,
        "dropout"@ != "vocab"@,
        "continuing_subword_prefix"@ != "type"@,
        "continuing_subword_prefix"@ != "vocab"@,
        "end_of_word_suffix"@ != "type"@,
        "end_of_word_suffix"@ != "vocab"@,
        "byte_fallback"@ != "type"@,
        "byte_fallback"@ != "vocab"@,
{
    reveal_strlit("truncation");
    reveal_strlit("padding");
    reveal_strlit("normalizer");
    reveal_strlit("pre_tokenizer");
    reveal_strlit("added_tokens");
    reveal_strlit("post_processor");
    reveal_strlit("decoder");
    reveal_strlit("model");
    reveal_strlit("dropout");
    reveal_strlit("continuing_subword_prefix");
    reveal_strlit("end_of_word_suffix");
    reveal_strlit("byte_fallback");
    reveal_strlit("type");
    reveal_strlit("vocab");
    assert("model"@.len() == 5);
    assert("type"@.len() == 4);
    assert("vocab"@.len() == 5);
}

/// What stands behind the encoding changes no count: it is missing, null or a byte-level step.
pub proof fn law_ends_of_a_definition(definition: JsonView, key: Seq<char>, v: JsonView)
    requires
        key == "post_processor"@ || key == "decoder"@,
    ensures
        member(definition, key) == Some(v) && v != JsonView::Null && (member(v, "type"@) != Some(
            JsonView::Text("ByteLevel"@),
        ) || !has_only(
            v,
            seq!["type"@, "add_prefix_space"@, "trim_offsets"@, "use_regex"@],
        )) ==> !definition_counts(definition),
        member(definition, key) is None || member(definition, key) == Some(JsonView::Null)
            ==> ends_plainly(definition, key),
        member(definition, key) == Some(v) && member(v, "type"@) == Some(
            JsonView::Text("ByteLevel"@),
        ) && has_only(
            v,
            seq!["type"@, "add_prefix_space"@, "trim_offsets"@, "use_regex"@],
        ) ==> ends_plainly(definition, key),
{
}

/// A text is counted by its encoding, whatever words it has, and by its words where it has none.
pub proof fn law_count_of_an_encoding(text: Seq<char>, encoded: Option<usize>)
    ensures
        text.len() == 0 ==> counted_tokens(text, encoded) == 0,
        text.len() > 0 ==> (encoded matches Some(n) ==> counted_tokens(text, encoded) == n),
        text.len() > 0 && encoded is None ==> counted_tokens(text, encoded) == word_count(text),
{
}

/// What an entry asks for counts as asked for where it is neither missing nor null; and nothing
/// more is needed for a definition to be counted with than that each of its parts is plain.
pub proof fn law_what_a_definition_asks_for(definition: JsonView)
    ensures
        ({
            let unset = |v: Option<JsonView>| v is None || v == Some(JsonView::Null);
            let model = member(definition, "model"@);
            let kind = member(model->Some_0, "type"@);
            let vocabulary = member(model->Some_0, "vocab"@);
            let fallback = member(model->Some_0, "byte_fallback"@);
            let added = member(definition, "added_tokens"@);
            &&& definition_truncates(definition) == !unset(member(definition, "truncation"@))
            &&& definition_pads(definition) == !unset(member(definition, "padding"@))
            &&& definition_has_dropout(definition) == (model is Some && !unset(
                member(model->Some_0, "dropout"@),
            ))
            &&& is_plain_definition(definition) == {
                &&& unset(member(definition, "normalizer"@))
                &&& splits_plainly(definition)
                &&& added is None || (added->Some_0 is Array && are_plain_tokens(
                    added->Some_0->Array_0,
                ))
                &&& ends_plainly(definition, "post_processor"@)
                &&& ends_plainly(definition, "decoder"@)
                &&& model is Some
                &&& vocabulary is Some
                &&& vocabulary->Some_0 is Object
                &&& are_plain_ids(vocabulary->Some_0->Object_0)
                &&& kind == Some(JsonView::Text("WordLevel"@)) || (kind == Some(
                    JsonView::Text("BPE"@),
                ) && unset(member(model->Some_0, "continuing_subword_prefix"@)) && unset(
                    member(model->Some_0, "end_of_word_suffix"@),
                ) && (unset(fallback) || fallback == Some(JsonView::Bool(false))))
            }
            &&& definition_counts(definition) == (is_plain_definition(definition)
                && !definition_truncates(definition) && !definition_pads(definition)
                && !definition_has_dropout(definition))
        }),
{
    lemma_kinds_differ();
}

} // verus!
