//! Normal forms of symbols and namespaces, and the names of slices.

use crate::slice_error::SliceError;
use crate::text::{
    is_ascii_alphanumeric, is_control, is_white_space, letters, push_decimal, push_zero_padded,
    same_text,
};
use vstd::prelude::*;
use vstd::string::*;

verus! {

/// Whether a symbol may hold a character.
pub open spec fn symbol_char(c: char) -> bool {
    !crate::text::control(c) && !crate::text::white_space(c)
}

/// Whether a namespace may hold a character.
pub open spec fn namespace_char(c: char) -> bool {
    crate::text::ascii_alphanumeric(c) || c == '_' || c == '-'
}

/// Whether a slice name may hold a character.
pub open spec fn slice_name_char(c: char) -> bool {
    crate::text::ascii_alphanumeric(c) || c == '.' || c == '_' || c == '-' || c == '/' || c == ':'
}

/// Whether every character of a text is admitted.
pub open spec fn made_of(text: Seq<char>, admitted: spec_fn(char) -> bool) -> bool {
    forall|i: int| 0 <= i < text.len() ==> admitted(#[trigger] text[i])
}

/// The normal form of a symbol, or what is wrong with it.
pub open spec fn symbol_of(raw: Seq<char>) -> Result<
    Seq<char>,
    crate::slice_error::SliceFault,
> {
    let symbol = crate::text::uppercase(crate::text::trimmed(raw));
    if symbol.len() == 0 {
        Err(crate::slice_error::SliceFault::EmptySymbol)
    } else if !made_of(symbol, |c: char| symbol_char(c)) {
        Err(crate::slice_error::SliceFault::UnsupportedSymbol(raw))
    } else {
        Ok(symbol)
    }
}

/// Whether a word stands for equities.
pub open spec fn means_equity(word: Seq<char>) -> bool {
    word == "eq"@ || word == "equity"@ || word == "equities"@ || word == "stock"@ || word
        == "stocks"@
}

/// Whether a word stands for crypto currencies.
pub open spec fn means_crypto(word: Seq<char>) -> bool {
    word == "crypto"@ || word == "cryptocurrency"@ || word == "coin"@ || word == "coins"@
}

/// Whether a word stands for options.
pub open spec fn means_option(word: Seq<char>) -> bool {
    word == "option"@ || word == "options"@ || word == "opt"@ || word == "op"@
}

/// Whether a word stands for futures.
pub open spec fn means_future(word: Seq<char>) -> bool {
    word == "future"@ || word == "futures"@ || word == "fut"@ || word == "fu"@
}

/// Whether a word stands for foreign exchange.
pub open spec fn means_fx(word: Seq<char>) -> bool {
    word == "fx"@ || word == "forex"@ || word == "currency"@ || word == "currencies"@
}

/// Whether a word stands for indices.
pub open spec fn means_index(word: Seq<char>) -> bool {
    word == "index"@ || word == "indices"@ || word == "idx"@ || word == "ix"@
}

/// The namespace that a word stands for: itself, unless it is an alias.
pub open spec fn namespace_for(word: Seq<char>) -> Seq<char> {
    if means_equity(word) {
        "eq"@
    } else if means_crypto(word) {
        "crypto"@
    } else if means_option(word) {
        "option"@
    } else if means_future(word) {
        "future"@
    } else if means_fx(word) {
        "fx"@
    } else if means_index(word) {
        "index"@
    } else {
        word
    }
}

/// The normal form of a namespace, or what is wrong with it.
pub open spec fn namespace_of(raw: Seq<char>) -> Result<
    Seq<char>,
    crate::slice_error::SliceFault,
> {
    let word = crate::text::lowercase(crate::text::trimmed(raw));
    if word.len() == 0 {
        Err(crate::slice_error::SliceFault::EmptyAssetClass)
    } else if !made_of(namespace_for(word), |c: char| namespace_char(c)) {
        Err(crate::slice_error::SliceFault::UnsupportedAssetClass(raw))
    } else {
        Ok(namespace_for(word))
    }
}

/// The identifier of a symbol in a namespace, both in normal form.
pub open spec fn qualified(namespace: Seq<char>, symbol: Seq<char>) -> Seq<char> {
    if namespace == "eq"@ {
        "eq:us:"@ + symbol
    } else if namespace == "option"@ {
        "option:us:"@ + symbol
    } else {
        namespace + ":"@ + symbol
    }
}

/// The identifier of a symbol, or what is wrong with its parts.
pub open spec fn instrument_of(
    asset_class: Seq<char>,
    symbol: Seq<char>,
    prefix: Option<Seq<char>>,
) -> Result<Seq<char>, crate::slice_error::SliceFault> {
    match namespace_of(asset_class) {
        Err(fault) => Err(fault),
        Ok(namespace) => match symbol_of(symbol) {
            Err(fault) => Err(fault),
            Ok(name) => match prefix {
                Some(given) => if crate::text::trimmed(given).len() == 0 {
                    Err(crate::slice_error::SliceFault::EmptyPrefix)
                } else {
                    Ok(crate::text::trimmed(given) + name)
                },
                None => Ok(qualified(namespace, name)),
            },
        },
    }
}

/// What is wrong with the name of a slice.
pub open spec fn slice_name_fault(name: Seq<char>) -> Option<crate::slice_error::SliceFault> {
    if crate::text::trimmed(name) != name || name.len() == 0 {
        Some(crate::slice_error::SliceFault::PaddedSliceName)
    } else if !made_of(name, |c: char| slice_name_char(c)) {
        Some(crate::slice_error::SliceFault::UnsupportedSliceName(name))
    } else {
        None
    }
}

/// A time since the epoch in seconds with nine decimals.
pub open spec fn seconds_shown(ns: u64) -> Seq<char> {
    if ns == 0 {
        "0"@
    } else {
        crate::text::decimal(ns as nat / 1_000_000_000) + "."@ + crate::text::zero_padded(
            ns as nat % 1_000_000_000,
            9,
        ) + "s"@
    }
}

/// A view of an optional text.
pub open spec fn text_view(text: Option<&str>) -> Option<Seq<char>> {
    match text {
        Some(t) => Some(t@),
        None => None,
    }
}

/// Trim and uppercase a nonempty key without embedded whitespace.
pub fn normalize_symbol(raw: &str) -> (result: Result<String, SliceError>)
    ensures
        crate::slice_error::gives(result, symbol_of(raw@)),
{
    let symbol: String = raw.trim().to_ascii_uppercase();
    let chars: Vec<char> = letters(symbol.as_str());
    if chars.len() == 0 {
        return Err(SliceError::EmptySymbol);
    }
    let mut i: usize = 0;
    while i < chars.len()
        invariant
            0 <= i <= chars@.len(),
            chars@ == symbol@,
            symbol@ == crate::text::uppercase(crate::text::trimmed(raw@)),
            symbol@.len() > 0,
            forall|k: int| 0 <= k < i ==> symbol_char(#[trigger] symbol@[k]),
        decreases chars@.len() - i,
    {
        if is_control(chars[i]) || is_white_space(chars[i]) {
            assert(!symbol_char(symbol@[i as int]));
            return Err(SliceError::UnsupportedSymbol(raw.to_owned()));
        }
        i = i + 1;
    }
    Ok(symbol)
}

fn alias(word: String) -> (namespace: String)
    ensures
        namespace@ == namespace_for(word@),
{
    let w: &str = word.as_str();
    if same_text(w, "eq") || same_text(w, "equity") || same_text(w, "equities") || same_text(
        w,
        "stock",
    ) || same_text(w, "stocks") {
        return "eq".to_owned();
    }
    if same_text(w, "crypto") || same_text(w, "cryptocurrency") || same_text(w, "coin")
        || same_text(w, "coins") {
        return "crypto".to_owned();
    }
    if same_text(w, "option") || same_text(w, "options") || same_text(w, "opt") || same_text(
        w,
        "op",
    ) {
        return "option".to_owned();
    }
    if same_text(w, "future") || same_text(w, "futures") || same_text(w, "fut") || same_text(
        w,
        "fu",
    ) {
        return "future".to_owned();
    }
    if same_text(w, "fx") || same_text(w, "forex") || same_text(w, "currency") || same_text(
        w,
        "currencies",
    ) {
        return "fx".to_owned();
    }
    if same_text(w, "index") || same_text(w, "indices") || same_text(w, "idx") || same_text(
        w,
        "ix",
    ) {
        return "index".to_owned();
    }
    word
}

/// Normalize known financial namespace aliases or validate a custom namespace.
pub fn normalize_asset_class(raw: &str) -> (result: Result<String, SliceError>)
    ensures
        crate::slice_error::gives(result, namespace_of(raw@)),
{
    let word: String = raw.trim().to_ascii_lowercase();
    if letters(word.as_str()).len() == 0 {
        return Err(SliceError::EmptyAssetClass);
    }
    let ghost held = word@;
    let namespace: String = alias(word);
    let chars: Vec<char> = letters(namespace.as_str());
    let mut i: usize = 0;
    while i < chars.len()
        invariant
            0 <= i <= chars@.len(),
            chars@ == namespace@,
            held == crate::text::lowercase(crate::text::trimmed(raw@)),
            held.len() > 0,
            namespace@ == namespace_for(held),
            forall|k: int| 0 <= k < i ==> namespace_char(#[trigger] namespace@[k]),
        decreases chars@.len() - i,
    {
        let c: char = chars[i];
        if !(is_ascii_alphanumeric(c) || c == '_' || c == '-') {
            assert(!namespace_char(namespace@[i as int]));
            return Err(SliceError::UnsupportedAssetClass(raw.to_owned()));
        }
        i = i + 1;
    }
    Ok(namespace)
}

/// Build a default stable identifier from namespace and normalized symbol.
pub fn default_instrument_id(
    asset_class: &str,
    symbol: &str,
    instrument_prefix: Option<&str>,
) -> (result: Result<String, SliceError>)
    ensures
        crate::slice_error::gives(
            result,
            instrument_of(asset_class@, symbol@, text_view(instrument_prefix)),
        ),
{
    let namespace: String = match normalize_asset_class(asset_class) {
        Ok(namespace) => namespace,
        Err(fault) => {
            return Err(fault);
        },
    };
    let name: String = match normalize_symbol(symbol) {
        Ok(name) => name,
        Err(fault) => {
            return Err(fault);
        },
    };
    match instrument_prefix {
        Some(given) => {
            let prefix: &str = given.trim();
            if letters(prefix).len() == 0 {
                return Err(SliceError::EmptyPrefix);
            }
            return Ok(prefix.to_owned().concat(name.as_str()));
        },
        None => {},
    }
    if same_text(namespace.as_str(), "eq") {
        return Ok("eq:us:".to_owned().concat(name.as_str()));
    }
    if same_text(namespace.as_str(), "option") {
        return Ok("option:us:".to_owned().concat(name.as_str()));
    }
    Ok(namespace.concat(":").concat(name.as_str()))
}

/// Validate the characters admitted in a catalog slice name.
pub fn validate_slice_name(name: &str) -> (result: Result<(), SliceError>)
    ensures
        crate::slice_error::reports(result, slice_name_fault(name@)),
{
    let chars: Vec<char> = letters(name);
    if !same_text(name.trim(), name) || chars.len() == 0 {
        return Err(SliceError::PaddedSliceName);
    }
    let mut i: usize = 0;
    while i < chars.len()
        invariant
            0 <= i <= chars@.len(),
            chars@ == name@,
            chars@.len() > 0,
            crate::text::trimmed(name@) == name@,
            forall|k: int| 0 <= k < i ==> slice_name_char(#[trigger] name@[k]),
        decreases chars@.len() - i,
    {
        let c: char = chars[i];
        if !(is_ascii_alphanumeric(c) || c == '.' || c == '_' || c == '-' || c == '/' || c == ':') {
            assert(!slice_name_char(name@[i as int]));
            return Err(SliceError::UnsupportedSliceName(name.to_owned()));
        }
        i = i + 1;
    }
    Ok(())
}

/// Format a nanosecond Unix timestamp as seconds plus zero-padded nanoseconds.
pub fn format_ns_since_epoch(ns: u64) -> (text: String)
    ensures
        text@ == seconds_shown(ns),
{
    if ns == 0 {
        return "0".to_owned();
    }
    let mut text: String = String::new();
    push_decimal(&mut text, ns / 1_000_000_000);
    text.append(".");
    push_zero_padded(&mut text, ns % 1_000_000_000, 9);
    text.append("s");
    assert(text@ =~= seconds_shown(ns));
    text
}

/// The normal form of a symbol is its own normal form.
pub proof fn lemma_symbol_normal(raw: Seq<char>)
    requires
        symbol_of(raw) is Ok,
    ensures
        symbol_of(symbol_of(raw)->Ok_0) == symbol_of(raw),
{
    let symbol = symbol_of(raw)->Ok_0;
    assert(symbol_char(symbol[0]));
    assert(symbol_char(symbol[symbol.len() - 1]));
    crate::text::lemma_trimmed_same(symbol);
    crate::text::lemma_uppercase_same(crate::text::trimmed(raw));
}

proof fn lemma_namespace_words()
    ensures
        crate::text::lowercase("eq"@) == "eq"@,
        crate::text::lowercase("crypto"@) == "crypto"@,
        crate::text::lowercase("option"@) == "option"@,
        crate::text::lowercase("future"@) == "future"@,
        crate::text::lowercase("fx"@) == "fx"@,
        crate::text::lowercase("index"@) == "index"@,
{
    reveal_strlit("eq");
    reveal_strlit("crypto");
    reveal_strlit("option");
    reveal_strlit("future");
    reveal_strlit("fx");
    reveal_strlit("index");
    assert(crate::text::lowercase("eq"@) =~= "eq"@);
    assert(crate::text::lowercase("crypto"@) =~= "crypto"@);
    assert(crate::text::lowercase("option"@) =~= "option"@);
    assert(crate::text::lowercase("future"@) =~= "future"@);
    assert(crate::text::lowercase("fx"@) =~= "fx"@);
    assert(crate::text::lowercase("index"@) =~= "index"@);
}

proof fn lemma_namespace_fixed()
    ensures
        namespace_for("eq"@) == "eq"@,
        namespace_for("crypto"@) == "crypto"@,
        namespace_for("option"@) == "option"@,
        namespace_for("future"@) == "future"@,
        namespace_for("fx"@) == "fx"@,
        namespace_for("index"@) == "index"@,
{
    reveal_strlit("eq");
    reveal_strlit("equity");
    reveal_strlit("equities");
    reveal_strlit("stock");
    reveal_strlit("stocks");
    reveal_strlit("crypto");
    reveal_strlit("cryptocurrency");
    reveal_strlit("coin");
    reveal_strlit("coins");
    reveal_strlit("option");
    reveal_strlit("options");
    reveal_strlit("opt");
    reveal_strlit("op");
    reveal_strlit("future");
    reveal_strlit("futures");
    reveal_strlit("fut");
    reveal_strlit("fu");
    reveal_strlit("fx");
    reveal_strlit("forex");
    reveal_strlit("currency");
    reveal_strlit("currencies");
    reveal_strlit("index");
    assert("crypto"@[0] == 'c' && "option"@[0] == 'o' && "future"@[0] == 'f' && "fx"@[0] == 'f'
        && "index"@[0] == 'i');
    assert("eq"@[0] == 'e' && "equity"@[0] == 'e' && "equities"@[0] == 'e');
    assert("stock"@[0] == 's' && "stocks"@[0] == 's');
    assert("cryptocurrency"@.len() == 14 && "crypto"@.len() == 6);
    assert("coin"@[0] == 'c' && "coins"@[0] == 'c');
    assert("fut"@.len() == 3 && "fu"@[1] == 'u' && "fx"@[1] == 'x');
    assert("currency"@[0] == 'c' && "currencies"@[0] == 'c' && "forex"@[0] == 'f');
    assert("option"@.len() == 6 && "options"@.len() == 7 && "opt"@[0] == 'o' && "op"@[0] == 'o');
    assert("future"@.len() == 6 && "futures"@.len() == 7);
}

/// The normal form of a namespace is its own normal form.
pub proof fn lemma_namespace_normal(raw: Seq<char>)
    requires
        namespace_of(raw) is Ok,
    ensures
        namespace_of(namespace_of(raw)->Ok_0) == namespace_of(raw),
{
    let word = crate::text::lowercase(crate::text::trimmed(raw));
    let namespace = namespace_of(raw)->Ok_0;
    lemma_namespace_words();
    lemma_namespace_fixed();
    reveal_strlit("eq");
    reveal_strlit("crypto");
    reveal_strlit("option");
    reveal_strlit("future");
    reveal_strlit("fx");
    reveal_strlit("index");
    assert(namespace.len() > 0);
    assert(namespace_char(namespace[0]));
    assert(namespace_char(namespace[namespace.len() - 1]));
    crate::text::lemma_trimmed_same(namespace);
    crate::text::lemma_lowercase_same(crate::text::trimmed(raw));
    assert(crate::text::lowercase(namespace) == namespace);
    assert(namespace_for(namespace) == namespace);
}

proof fn lemma_qualified_starts(namespace: Seq<char>, symbol: Seq<char>)
    ensures
        qualified(namespace, symbol).len() > namespace.len(),
        qualified(namespace, symbol).take(namespace.len() as int) == namespace,
        qualified(namespace, symbol)[namespace.len() as int] == ':',
{
    let id = qualified(namespace, symbol);
    reveal_strlit("eq");
    reveal_strlit("eq:us:");
    reveal_strlit("option");
    reveal_strlit("option:us:");
    reveal_strlit(":");
    assert(id.take(namespace.len() as int) =~= namespace);
}

/// Default identifiers are told apart: two are equal only for the same
/// namespace and the same symbol, both in normal form.
pub proof fn lemma_default_identifiers_differ(
    asset_class: Seq<char>,
    symbol: Seq<char>,
    other_class: Seq<char>,
    other_symbol: Seq<char>,
)
    requires
        instrument_of(asset_class, symbol, None) is Ok,
        instrument_of(asset_class, symbol, None) == instrument_of(other_class, other_symbol, None),
    ensures
        namespace_of(asset_class) == namespace_of(other_class),
        symbol_of(symbol) == symbol_of(other_symbol),
{
    let a = namespace_of(asset_class)->Ok_0;
    let b = namespace_of(other_class)->Ok_0;
    let x = symbol_of(symbol)->Ok_0;
    let y = symbol_of(other_symbol)->Ok_0;
    let id = qualified(a, x);
    assert(id == qualified(b, y));
    lemma_qualified_starts(a, x);
    lemma_qualified_starts(b, y);
    if a.len() < b.len() {
        assert(id.take(b.len() as int)[a.len() as int] == ':');
        assert(namespace_char(b[a.len() as int]));
    } else if b.len() < a.len() {
        assert(id.take(a.len() as int)[b.len() as int] == ':');
        assert(namespace_char(a[b.len() as int]));
    }
    assert(a == b);
    let start = if a == "eq"@ {
        "eq:us:"@
    } else if a == "option"@ {
        "option:us:"@
    } else {
        a + ":"@
    };
    assert(id =~= start + x);
    assert(id =~= start + y);
    assert(id.skip(start.len() as int) =~= x);
    assert(id.skip(start.len() as int) =~= y);
}

/// A symbol is accepted exactly where something is left of it without the
/// white space around it, and nothing in it is white space or a control; it is
/// then what is left, in upper case.
pub proof fn lemma_symbols_are_normalized(raw: &str, result: Result<String, SliceError>)
    requires
        call_ensures(normalize_symbol, (raw,), result),
    ensures
        ({
            let left = crate::text::uppercase(crate::text::trimmed(raw@));
            let plain = forall|i: int|
                0 <= i < left.len() ==> !crate::text::white_space(#[trigger] left[i])
                    && !crate::text::control(left[i]);
            &&& result is Ok <==> left.len() > 0 && plain
            &&& result is Ok ==> result->Ok_0@ == left
            &&& left.len() == 0 ==> result->Err_0@ == crate::slice_error::SliceFault::EmptySymbol
            &&& left.len() > 0 && !plain ==> result->Err_0@
                == crate::slice_error::SliceFault::UnsupportedSymbol(raw@)
        }),
{
    let left = crate::text::uppercase(crate::text::trimmed(raw@));
    let admitted = |c: char| symbol_char(c);
    if made_of(left, admitted) {
        assert forall|i: int| 0 <= i < left.len() implies !crate::text::white_space(
            #[trigger] left[i],
        ) && !crate::text::control(left[i]) by {
            assert(admitted(left[i]));
        }
    } else {
        let i = choose|i: int| 0 <= i < left.len() && !admitted(#[trigger] left[i]);
        assert(crate::text::white_space(left[i]) || crate::text::control(left[i]));
    }
}

/// An asset class is known under many words: those for stocks, coins, options,
/// futures, currencies and indices each mean one namespace; any other word of
/// letters, digits, underscores and hyphens is its own namespace.
pub proof fn lemma_asset_classes_are_known(raw: &str, result: Result<String, SliceError>)
    requires
        call_ensures(normalize_asset_class, (raw,), result),
    ensures
        ({
            let word = crate::text::lowercase(crate::text::trimmed(raw@));
            let stocks = word == "eq"@ || word == "equity"@ || word == "equities"@ || word
                == "stock"@ || word == "stocks"@;
            let coins = word == "crypto"@ || word == "cryptocurrency"@ || word == "coin"@ || word
                == "coins"@;
            let options = word == "option"@ || word == "options"@ || word == "opt"@ || word
                == "op"@;
            let futures = word == "future"@ || word == "futures"@ || word == "fut"@ || word
                == "fu"@;
            let currencies = word == "fx"@ || word == "forex"@ || word == "currency"@ || word
                == "currencies"@;
            let indices = word == "index"@ || word == "indices"@ || word == "idx"@ || word
                == "ix"@;
            let known = stocks || coins || options || futures || currencies || indices;
            let plain = forall|i: int|
                0 <= i < word.len() ==> crate::text::ascii_alphanumeric(#[trigger] word[i])
                    || word[i] == '_' || word[i] == '-';
            &&& stocks ==> result is Ok && result->Ok_0@ == "eq"@
            &&& coins ==> result is Ok && result->Ok_0@ == "crypto"@
            &&& options ==> result is Ok && result->Ok_0@ == "option"@
            &&& futures ==> result is Ok && result->Ok_0@ == "future"@
            &&& currencies ==> result is Ok && result->Ok_0@ == "fx"@
            &&& indices ==> result is Ok && result->Ok_0@ == "index"@
            &&& !known ==> (result is Ok <==> word.len() > 0 && plain)
            &&& !known && result is Ok ==> result->Ok_0@ == word
            &&& word.len() == 0 ==> result->Err_0@
                == crate::slice_error::SliceFault::EmptyAssetClass
            &&& !known && word.len() > 0 && !plain ==> result->Err_0@
                == crate::slice_error::SliceFault::UnsupportedAssetClass(raw@)
        }),
{
    reveal_strlit("eq");
    reveal_strlit("equity");
    reveal_strlit("equities");
    reveal_strlit("stock");
    reveal_strlit("stocks");
    reveal_strlit("crypto");
    reveal_strlit("cryptocurrency");
    reveal_strlit("coin");
    reveal_strlit("coins");
    reveal_strlit("option");
    reveal_strlit("options");
    reveal_strlit("opt");
    reveal_strlit("op");
    reveal_strlit("future");
    reveal_strlit("futures");
    reveal_strlit("fut");
    reveal_strlit("fu");
    reveal_strlit("fx");
    reveal_strlit("forex");
    reveal_strlit("currency");
    reveal_strlit("currencies");
    reveal_strlit("index");
    reveal_strlit("indices");
    reveal_strlit("idx");
    reveal_strlit("ix");
    let word = crate::text::lowercase(crate::text::trimmed(raw@));
    let admitted = |c: char| namespace_char(c);
    let stocks = means_equity(word);
    let coins = means_crypto(word);
    let options = means_option(word);
    let futures = means_future(word);
    let currencies = means_fx(word);
    assert(coins ==> word[0] == 'c' && word[1] != 'u');
    assert(stocks ==> word[0] == 'e' || word[0] == 's');
    assert(options ==> word[0] == 'o');
    assert(futures ==> word[0] == 'f' && word[1] == 'u');
    assert(currencies ==> word == "fx"@ || (word[0] == 'f' && word[1] == 'o') || (word[0] == 'c'
        && word[1] == 'u'));
    assert(means_index(word) ==> word[0] == 'i');
    if made_of(word, admitted) {
        assert forall|i: int| 0 <= i < word.len() implies crate::text::ascii_alphanumeric(
            #[trigger] word[i],
        ) || word[i] == '_' || word[i] == '-' by {
            assert(admitted(word[i]));
        }
    } else {
        let i = choose|i: int| 0 <= i < word.len() && !admitted(#[trigger] word[i]);
        assert(!namespace_char(word[i]));
    }
}

/// An identifier ends in the normalized symbol. A prefix that is given stands
/// before it, without the white space around the prefix; else the namespace
/// does, followed by the market for stocks and options.
pub proof fn lemma_identifiers_end_in_symbol(
    asset_class: &str,
    symbol: &str,
    instrument_prefix: Option<&str>,
    result: Result<String, SliceError>,
    namespace: Result<String, SliceError>,
    name: Result<String, SliceError>,
)
    requires
        call_ensures(default_instrument_id, (asset_class, symbol, instrument_prefix), result),
        call_ensures(normalize_asset_class, (asset_class,), namespace),
        call_ensures(normalize_symbol, (symbol,), name),
    ensures
        namespace is Err ==> result is Err && result->Err_0@ == namespace->Err_0@,
        namespace is Ok && name is Err ==> result is Err && result->Err_0@ == name->Err_0@,
        namespace is Ok && name is Ok && instrument_prefix is Some ==> {
            let prefix = crate::text::trimmed(instrument_prefix->0@);
            &&& prefix.len() > 0 ==> result is Ok && result->Ok_0@ == prefix + name->Ok_0@
            &&& prefix.len() == 0 ==> result is Err && result->Err_0@
                == crate::slice_error::SliceFault::EmptyPrefix
        },
        namespace is Ok && name is Ok && instrument_prefix is None ==> {
            &&& result is Ok
            &&& namespace->Ok_0@ == "eq"@ ==> result->Ok_0@ == "eq:us:"@ + name->Ok_0@
            &&& namespace->Ok_0@ == "option"@ ==> result->Ok_0@ == "option:us:"@ + name->Ok_0@
            &&& namespace->Ok_0@ != "eq"@ && namespace->Ok_0@ != "option"@ ==> result->Ok_0@
                == namespace->Ok_0@ + ":"@ + name->Ok_0@
        },
{
    reveal_strlit("eq");
    reveal_strlit("option");
    assert("eq"@.len() != "option"@.len());
}

/// A slice name is accepted exactly where it is not empty, has no white space
/// around it, and is made of letters, digits and `._-/:`.
pub proof fn lemma_slice_names_are_plain(name: &str, result: Result<(), SliceError>)
    requires
        call_ensures(validate_slice_name, (name,), result),
    ensures
        result is Ok <==> {
            &&& name@.len() > 0
            &&& crate::text::trimmed(name@) == name@
            &&& forall|i: int|
                0 <= i < name@.len() ==> crate::text::ascii_alphanumeric(#[trigger] name@[i])
                    || name@[i] == '.' || name@[i] == '_' || name@[i] == '-' || name@[i] == '/'
                    || name@[i] == ':'
        },
{
    let admitted = |c: char| slice_name_char(c);
    if made_of(name@, admitted) {
        assert forall|i: int| 0 <= i < name@.len() implies crate::text::ascii_alphanumeric(
            #[trigger] name@[i],
        ) || name@[i] == '.' || name@[i] == '_' || name@[i] == '-' || name@[i] == '/' || name@[i]
            == ':' by {
            assert(admitted(name@[i]));
        }
    } else {
        let i = choose|i: int| 0 <= i < name@.len() && !admitted(#[trigger] name@[i]);
        assert(!slice_name_char(name@[i]));
    }
}

/// A time in nanoseconds is shown in seconds with nine places, which together
/// read as the nanoseconds; zero is shown bare.
pub proof fn lemma_times_are_shown_in_seconds(ns: u64, text: String)
    requires
        call_ensures(format_ns_since_epoch, (ns,), text),
    ensures
        ns == 0 ==> text@ == "0"@,
        ns > 0 ==> exists|whole: Seq<char>, part: Seq<char>|
            {
                &&& text@ == #[trigger] (whole + "."@ + part) + "s"@
                &&& part.len() == 9
                &&& crate::text::reading(whole) * 1_000_000_000 + crate::text::reading(part) == ns
            },
{
    if ns > 0 {
        let s = ns as nat / 1_000_000_000;
        let r = ns as nat % 1_000_000_000;
        crate::text::lemma_decimals_read_back(s, 0);
        crate::text::lemma_decimals_read_back(r, 9);
        reveal_with_fuel(vstd::arithmetic::power::pow, 10);
        assert(vstd::arithmetic::power::pow(10, 9) == 1_000_000_000);
        crate::text::lemma_decimal_width(r, 9);
        let whole = crate::text::decimal(s);
        let part = crate::text::zero_padded(r, 9);
        assert(text@ == whole + "."@ + part + "s"@);
    }
}

} // verus!
