//! Lookup of one module record in a sorted, one-entry-per-line module index.
use crate::document::{
    compare_bytes, has_key, is_sorted, is_strictly_sorted, key_index, key_of, key_span,
    lemma_key_unique, lemma_lex_cmp_antisym, lemma_lex_cmp_zero, lex_cmp, line_spans, lines_of,
    literal_of, literal_span, span_lines, law_literal_ignores_trailing_comma, lemma_find_byte_push,
    lemma_find_byte_bounds, find_byte, COMMA, QUOTE,
};
use crate::tree::{field, field_of, string_list, strings_of_value, text_of_value, text_value, Tree};
use vstd::prelude::*;
use vstd::string::StringSliceAdditionalSpecFns;
use vstd::utf8::{encode_utf8, valid_utf8};

verus! {

/// The JSON value that `bytes` hold, as serde_json parses it; nothing for
/// bytes that are not JSON.
pub uninterp spec fn json_of(bytes: Seq<u8>) -> Option<Tree>;

/// serde_json's parsed JSON value.
#[verifier::external_type_specification]
#[verifier::external_body]
pub struct ExJsonValue(serde_json::Value);

/// Relies on serde_json::from_slice: the JSON value of the bytes, carried
/// over node for node into a `Tree`; nothing when the bytes are not JSON.
#[verifier::external_body]
fn parse_json(bytes: &[u8]) -> (r: Option<Tree>)
    ensures
        r == json_of(bytes@),
{
    serde_json::from_slice::<serde_json::Value>(bytes).ok().map(tree_of_json)
}

/// Carries a serde_json value over into a `Tree`, one node for each node;
/// numbers keep the text serde_json writes for them.
#[verifier::external_body]
fn tree_of_json(v: serde_json::Value) -> Tree {
    match v {
        serde_json::Value::Null => Tree::Null,
        serde_json::Value::Bool(b) => Tree::Bool(b),
        serde_json::Value::Number(n) => Tree::Number(n.to_string()),
        serde_json::Value::String(s) => Tree::Str(s),
        serde_json::Value::Array(a) => Tree::Array(a.into_iter().map(tree_of_json).collect()),
        serde_json::Value::Object(m) => Tree::Object(m.into_iter().map(|(k, x)| (k, tree_of_json(x))).collect()),
    }
}

/// Relies on std::str::from_utf8: it succeeds exactly on valid UTF-8, and the
/// text it returns holds the same bytes.
#[verifier::external_body]
fn utf8_text<'b>(b: &'b [u8]) -> (r: Option<&'b str>)
    ensures
        r is Some <==> valid_utf8(b@),
        bytes_of(r) == (if valid_utf8(b@) { Some(b@) } else { None::<Seq<u8>> }),
{
    std::str::from_utf8(b).ok()
}

/// Why an object literal did not decode into a module record.
#[derive(Debug, Clone, Copy, PartialEq, Eq, Structural)]
pub enum RecordError {
    /// The text is not JSON.
    Syntax,
    /// `module_name` is missing or not a string.
    ModuleName,
    /// `path` is missing or not an array of strings.
    Path,
    /// `installed` is missing or not an array of strings.
    Installed,
}

/// One module's metadata: its name, its source paths and its installed outputs.
#[derive(Debug)]
pub struct ModuleInfo {
    pub module_name: String,
    pub path: Vec<String>,
    pub installed: Vec<String>,
}

impl View for ModuleInfo {
    type V = (String, Seq<String>, Seq<String>);

    open spec fn view(&self) -> (String, Seq<String>, Seq<String>) {
        (self.module_name, self.path@, self.installed@)
    }
}

/// A record from its three fields; the first one missing names the error.
pub open spec fn record_from(
    module_name: Option<String>,
    path: Option<Seq<String>>,
    installed: Option<Seq<String>>,
) -> Result<(String, Seq<String>, Seq<String>), RecordError> {
    match (module_name, path, installed) {
        (None, _, _) => Err(RecordError::ModuleName),
        (Some(_), None, _) => Err(RecordError::Path),
        (Some(_), Some(_), None) => Err(RecordError::Installed),
        (Some(n), Some(p), Some(i)) => Ok((n, p, i)),
    }
}

/// The record that a parsed JSON value decodes to: its members
/// `module_name` (a string), `path` and `installed` (arrays of strings);
/// other members play no part.
pub open spec fn decoded(t: Option<Tree>) -> Result<(String, Seq<String>, Seq<String>), RecordError> {
    if t is None {
        Err(RecordError::Syntax)
    } else {
        record_from(
            text_value(field(t, "module_name"@)),
            string_list(field(t, "path"@)),
            string_list(field(t, "installed"@)),
        )
    }
}

/// The view of a decoding outcome.
pub open spec fn result_view(r: Result<ModuleInfo, RecordError>) -> Result<
    (String, Seq<String>, Seq<String>),
    RecordError,
> {
    match r {
        Ok(m) => Ok(m@),
        Err(e) => Err(e),
    }
}

/// The record of an entry's literal, where the literal decodes.
pub open spec fn decode_entry(lit: Option<Seq<u8>>) -> Option<(String, Seq<String>, Seq<String>)> {
    match lit {
        Some(t) => match decoded(json_of(t)) {
            Ok(v) => Some(v),
            Err(_) => None,
        },
        None => None,
    }
}

/// The view of an optional record.
pub open spec fn info_view(r: Option<ModuleInfo>) -> Option<(String, Seq<String>, Seq<String>)> {
    match r {
        Some(m) => Some(m@),
        None => None,
    }
}

/// The line that a binary search of lines `lo` to `hi` reaches for `key`,
/// comparing keys ordinally; nothing when it closes in on no line.
pub open spec fn probe(d: Seq<u8>, key: Seq<u8>, lo: int, hi: int) -> Option<int>
    decreases hi - lo,
{
    if lo < 0 || lo >= hi || hi > lines_of(d).len() {
        None
    } else {
        let mid = lo + (hi - lo) / 2;
        let c = lex_cmp(key_of(lines_of(d)[mid]), key);
        if c == 0 {
            Some(mid)
        } else if c < 0 {
            probe(d, key, mid + 1, hi)
        } else {
            probe(d, key, lo, mid)
        }
    }
}

/// The literal that a lookup of `key` reaches: that of the line the binary
/// search over all lines finds; nothing for an empty key.
pub open spec fn lookup_literal(d: Seq<u8>, key: Seq<u8>) -> Option<Seq<u8>> {
    if key.len() == 0 {
        None
    } else {
        match probe(d, key, 0, lines_of(d).len() as int) {
            Some(i) => literal_of(lines_of(d)[i]),
            None => None,
        }
    }
}

proof fn lemma_probe_same_keys(d1: Seq<u8>, d2: Seq<u8>, key: Seq<u8>, lo: int, hi: int)
    requires
        lines_of(d1).len() == lines_of(d2).len(),
        forall|i: int|
            0 <= i < lines_of(d1).len() ==> key_of(#[trigger] lines_of(d1)[i]) == key_of(
                lines_of(d2)[i],
            ),
    ensures
        probe(d1, key, lo, hi) == probe(d2, key, lo, hi),
    decreases hi - lo,
{
    if 0 <= lo < hi <= lines_of(d1).len() {
        let mid = lo + (hi - lo) / 2;
        lemma_probe_same_keys(d1, d2, key, mid + 1, hi);
        lemma_probe_same_keys(d1, d2, key, lo, mid);
    }
}

/// A trailing comma on an entry line changes no lookup: two documents whose
/// lines agree but for a comma at the end of one line, whose key is closed by
/// its quote, give every key the same literal.
pub proof fn law_lookup_ignores_trailing_comma(d1: Seq<u8>, d2: Seq<u8>, k: int, key: Seq<u8>)
    requires
        lines_of(d1).len() == lines_of(d2).len(),
        0 <= k < lines_of(d2).len(),
        forall|i: int|
            0 <= i < lines_of(d1).len() && i != k ==> #[trigger] lines_of(d1)[i] == lines_of(d2)[i],
        lines_of(d1)[k] == lines_of(d2)[k].push(COMMA),
        find_byte(lines_of(d2)[k], QUOTE, find_byte(lines_of(d2)[k], QUOTE, 0) + 1)
            < lines_of(d2)[k].len(),
    ensures
        lookup_literal(d1, key) == lookup_literal(d2, key),
{
    let l = lines_of(d2)[k];
    let a = find_byte(l, QUOTE, 0);
    lemma_find_byte_bounds(l, QUOTE, 0);
    lemma_find_byte_push(l, QUOTE, 0);
    lemma_find_byte_bounds(l, QUOTE, a + 1);
    lemma_find_byte_push(l, QUOTE, a + 1);
    assert(key_of(l.push(COMMA)) =~= key_of(l));
    law_literal_ignores_trailing_comma(l);
    assert forall|i: int| 0 <= i < lines_of(d1).len() implies key_of(#[trigger] lines_of(d1)[i])
        == key_of(lines_of(d2)[i]) by {
        if i != k {
            assert(lines_of(d1)[i] == lines_of(d2)[i]);
        }
    }
    lemma_probe_same_keys(d1, d2, key, 0, lines_of(d1).len() as int);
    let p = probe(d1, key, 0, lines_of(d1).len() as int);
    if p is Some {
        let i = p->Some_0;
        lemma_probe_in_range(d1, key, 0, lines_of(d1).len() as int);
        if i != k {
            assert(lines_of(d1)[i] == lines_of(d2)[i]);
        }
    }
}

proof fn lemma_probe_in_range(d: Seq<u8>, key: Seq<u8>, lo: int, hi: int)
    ensures
        probe(d, key, lo, hi) matches Some(i) ==> lo <= i < hi,
    decreases hi - lo,
{
    if 0 <= lo < hi <= lines_of(d).len() {
        let mid = lo + (hi - lo) / 2;
        lemma_probe_in_range(d, key, mid + 1, hi);
        lemma_probe_in_range(d, key, lo, mid);
    }
}

/// That literal where it is valid UTF-8.
pub open spec fn lookup_text(d: Seq<u8>, key: Seq<u8>) -> Option<Seq<u8>> {
    match lookup_literal(d, key) {
        Some(t) => if valid_utf8(t) {
            Some(t)
        } else {
            None
        },
        None => None,
    }
}

/// The literal of the line that holds `key`, where one does.
pub open spec fn entry_literal(d: Seq<u8>, key: Seq<u8>) -> Option<Seq<u8>> {
    if has_key(d, key) {
        literal_of(lines_of(d)[key_index(d, key)])
    } else {
        None
    }
}

/// The text of a line's object literal, where it is valid UTF-8.
pub open spec fn text_of(line: Seq<u8>) -> Option<Seq<u8>> {
    match literal_of(line) {
        Some(t) => if valid_utf8(t) {
            Some(t)
        } else {
            None
        },
        None => None,
    }
}

/// What a lookup of `key` yields as text in a document whose keys are unique.
pub open spec fn entry_text(d: Seq<u8>, key: Seq<u8>) -> Option<Seq<u8>> {
    if has_key(d, key) {
        text_of(lines_of(d)[key_index(d, key)])
    } else {
        None
    }
}

/// The bytes of an optional text.
pub open spec fn bytes_of(r: Option<&str>) -> Option<Seq<u8>> {
    match r {
        Some(t) => Some(t.spec_bytes()),
        None => None,
    }
}

/// The bytes of an optional slice.
pub open spec fn slice_view(r: Option<&[u8]>) -> Option<Seq<u8>> {
    match r {
        Some(b) => Some(b@),
        None => None,
    }
}

/// In a document with unique keys whose every entry decodes to a record
/// named by its key, looking up a present key yields a record of that name.
pub proof fn law_present_key_gives_its_record(d: Seq<u8>, key: Seq<u8>)
    requires
        is_strictly_sorted(d),
        has_key(d, key),
        forall|i: int|
            0 <= i < lines_of(d).len() ==> match #[trigger] decode_entry(literal_of(lines_of(d)[i])) {
                Some(v) => encode_utf8(v.0@) == key_of(lines_of(d)[i]),
                None => false,
            },
    ensures
        match decode_entry(entry_literal(d, key)) {
            Some(v) => encode_utf8(v.0@) == key,
            None => false,
        },
{
    let i = key_index(d, key);
    assert(decode_entry(literal_of(lines_of(d)[i])) is Some);
}

impl ModuleInfo {
    /// A record from its three decoded fields; the first one missing names the error.
    pub fn from_fields(
        module_name: Option<String>,
        path: Option<Vec<String>>,
        installed: Option<Vec<String>>,
    ) -> (r: Result<ModuleInfo, RecordError>)
        ensures
            result_view(r) == record_from(
                module_name,
                match path {
                    Some(p) => Some(p@),
                    None => None,
                },
                match installed {
                    Some(i) => Some(i@),
                    None => None,
                },
            ),
    {
        match (module_name, path, installed) {
            (None, _, _) => Err(RecordError::ModuleName),
            (Some(_), None, _) => Err(RecordError::Path),
            (Some(_), Some(_), None) => Err(RecordError::Installed),
            (Some(n), Some(p), Some(i)) => Ok(ModuleInfo { module_name: n, path: p, installed: i }),
        }
    }

    /// The record of a parsed JSON value.
    pub fn from_tree(t: Option<Tree>) -> (r: Result<ModuleInfo, RecordError>)
        ensures
            result_view(r) == decoded(t),
    {
        let v = match t {
            Some(v) => v,
            None => return Err(RecordError::Syntax),
        };
        let name = text_of_value(field_of(&v, "module_name"));
        let path = strings_of_value(field_of(&v, "path"));
        let installed = strings_of_value(field_of(&v, "installed"));
        ModuleInfo::from_fields(name, path, installed)
    }

    /// Decodes a JSON object literal; members other than `module_name`, `path`
    /// and `installed` are ignored.
    pub fn try_from(src: &str) -> (r: Result<ModuleInfo, RecordError>)
        ensures
            result_view(r) == decoded(json_of(src.spec_bytes())),
    {
        ModuleInfo::from_tree(parse_json(src.as_bytes()))
    }
}

/// A read-only view over a module index: a JSON object whose entries stand
/// one per line, `  "<key>": {...},`, sorted by key.
pub struct ModuleInfoSet<'a> {
    data: &'a [u8],
}

impl<'a> View for ModuleInfoSet<'a> {
    type V = Seq<u8>;

    closed spec fn view(&self) -> Seq<u8> {
        self.data@
    }
}

impl<'a> ModuleInfoSet<'a> {
    pub fn new(data: &'a [u8]) -> (r: ModuleInfoSet<'a>)
        ensures
            r@ == data@,
    {
        ModuleInfoSet { data }
    }

    /// Binary search of the lines for `key`.
    fn locate(&self, spans: &Vec<(usize, usize)>, key: &[u8]) -> (r: Option<usize>)
        requires
            span_lines(self@, spans@) == lines_of(self@),
            forall|k: int|
                0 <= k < spans@.len() ==> (#[trigger] spans@[k]).0 <= spans@[k].1 <= self@.len(),
        ensures
            match r {
                Some(i) => i < spans@.len() && key_of(lines_of(self@)[i as int]) == key@ && probe(
                    self@,
                    key@,
                    0,
                    lines_of(self@).len() as int,
                ) == Some(i as int),
                None => (is_sorted(self@) ==> !has_key(self@, key@)) && probe(
                    self@,
                    key@,
                    0,
                    lines_of(self@).len() as int,
                ) is None,
            },
    {
        let ghost d = self@;
        let ghost lines = lines_of(d);
        let mut lo: usize = 0;
        let mut hi: usize = spans.len();
        while lo < hi
            invariant
                d == self@,
                lines == lines_of(d),
                span_lines(d, spans@) == lines,
                forall|k: int|
                    0 <= k < spans@.len() ==> (#[trigger] spans@[k]).0 <= spans@[k].1 <= d.len(),
                lo <= hi <= spans@.len(),
                is_sorted(d) ==> forall|i: int|
                    (0 <= i < lo || hi <= i < lines.len()) ==> key_of(#[trigger] lines[i]) != key@,
                probe(d, key@, lo as int, hi as int) == probe(d, key@, 0, lines.len() as int),
                spans@.len() == lines.len(),
            decreases hi - lo,
        {
            let mid = lo + (hi - lo) / 2;
            let (a, b) = spans[mid];
            let (ka, kb) = key_span(self.data, a, b);
            let c = compare_bytes(self.data, ka, kb, key);
            let ghost km = key_of(lines[mid as int]);
            assert(lines[mid as int] == d.subrange(a as int, b as int));
            proof {
                lemma_lex_cmp_zero(km, key@);
                lemma_lex_cmp_antisym(km, key@);
            }
            if c == 0 {
                return Some(mid);
            } else if c < 0 {
                assert forall|i: int| is_sorted(d) && 0 <= i <= mid implies key_of(
                    #[trigger] lines[i],
                ) != key@ by {
                    if i < mid && key_of(lines[i]) == key@ {
                        assert(lex_cmp(key_of(lines[i]), key_of(lines[mid as int])) <= 0);
                    }
                }
                lo = mid + 1;
            } else {
                assert forall|i: int| is_sorted(d) && mid <= i < lines.len() implies key_of(
                    #[trigger] lines[i],
                ) != key@ by {
                    if mid < i && key_of(lines[i]) == key@ {
                        assert(lex_cmp(key_of(lines[mid as int]), key_of(lines[i])) <= 0);
                    }
                }
                hi = mid;
            }
        }
        None
    }

    /// The object literal of the entry whose key is `key`, as bytes of the index.
    fn locate_literal(&self, key: &[u8]) -> (r: Option<&'a [u8]>)
        ensures
            key@.len() == 0 ==> r is None,
            self@.len() == 0 ==> r is None,
            r is Some ==> exists|i: int|
                0 <= i < lines_of(self@).len() && key_of(#[trigger] lines_of(self@)[i]) == key@
                    && literal_of(lines_of(self@)[i]) == slice_view(r),
            !has_key(self@, key@) ==> r is None,
            is_sorted(self@) && has_key(self@, key@) && key@.len() > 0 ==> exists|i: int|
                0 <= i < lines_of(self@).len() && key_of(#[trigger] lines_of(self@)[i]) == key@
                    && literal_of(lines_of(self@)[i]) == slice_view(r),
            is_strictly_sorted(self@) && key@.len() > 0 ==> slice_view(r) == entry_literal(self@, key@),
            slice_view(r) == lookup_literal(self@, key@),
    {
        let d = self.data;
        if key.len() == 0 {
            return None;
        }
        if d.len() < 4 {
            assert(lines_of(d@) =~= Seq::<Seq<u8>>::empty());
            return None;
        }
        let spans = line_spans(d, 2, d.len() - 2);
        let found = self.locate(&spans, key);
        proof {
            if is_strictly_sorted(d@) {
                assert forall|i: int, j: int|
                    0 <= i < j < lines_of(d@).len() implies lex_cmp(
                    #[trigger] key_of(lines_of(d@)[i]),
                    #[trigger] key_of(lines_of(d@)[j]),
                ) <= 0 by {}
            }
        }
        match found {
            None => None,
            Some(i) => {
                let (a, b) = spans[i];
                assert(lines_of(d@)[i as int] == d@.subrange(a as int, b as int));
                proof {
                    if is_strictly_sorted(d@) {
                        let j = key_index(d@, key@);
                        lemma_key_unique(d@, i as int, j);
                    }
                }
                match literal_span(d, a, b) {
                    None => None,
                    Some((o, e)) => Some(vstd::slice::slice_subrange(d, o, e)),
                }
            },
        }
    }

    /// The object literal of the entry whose key is `module_name`, where it
    /// is valid UTF-8.
    ///
    /// Whatever comes back is the literal of a line with that key; with no such
    /// line, or with an empty key, nothing comes back. On a sorted index a line
    /// with the key is found whenever there is one. Where each key stands once,
    /// the result depends on the document and the key alone.
    pub fn find_literal(&self, module_name: &str) -> (r: Option<&'a str>)
        ensures
            module_name.spec_bytes().len() == 0 ==> r is None,
            self@.len() == 0 ==> r is None,
            r is Some ==> exists|i: int|
                0 <= i < lines_of(self@).len() && key_of(#[trigger] lines_of(self@)[i])
                    == module_name.spec_bytes() && text_of(lines_of(self@)[i]) == bytes_of(r),
            !has_key(self@, module_name.spec_bytes()) ==> r is None,
            is_sorted(self@) && has_key(self@, module_name.spec_bytes())
                && module_name.spec_bytes().len() > 0 ==> exists|i: int|
                0 <= i < lines_of(self@).len() && key_of(#[trigger] lines_of(self@)[i])
                    == module_name.spec_bytes() && text_of(lines_of(self@)[i]) == bytes_of(r),
            is_strictly_sorted(self@) && module_name.spec_bytes().len() > 0 ==> bytes_of(r)
                == entry_text(self@, module_name.spec_bytes()),
            bytes_of(r) == lookup_text(self@, module_name.spec_bytes()),
    {
        match self.locate_literal(module_name.as_bytes()) {
            None => None,
            Some(b) => utf8_text(b),
        }
    }

    /// The record of the module `module_name`: its line's object literal,
    /// decoded. Nothing for an empty name, when no line has that key, when the
    /// line holds no literal, or when the literal does not decode. On a sorted
    /// index a line with the key is found whenever there is one; where each
    /// key stands once, the result is that line's decoded record, so that
    /// repeated lookups on one view agree.
    pub fn find(&self, module_name: &str) -> (r: Option<ModuleInfo>)
        ensures
            module_name.spec_bytes().len() == 0 ==> r is None,
            self@.len() == 0 ==> r is None,
            r is Some ==> exists|i: int|
                0 <= i < lines_of(self@).len() && key_of(#[trigger] lines_of(self@)[i])
                    == module_name.spec_bytes() && info_view(r) == decode_entry(
                    literal_of(lines_of(self@)[i]),
                ),
            !has_key(self@, module_name.spec_bytes()) ==> r is None,
            is_sorted(self@) && has_key(self@, module_name.spec_bytes())
                && module_name.spec_bytes().len() > 0 ==> exists|i: int|
                0 <= i < lines_of(self@).len() && key_of(#[trigger] lines_of(self@)[i])
                    == module_name.spec_bytes() && info_view(r) == decode_entry(
                    literal_of(lines_of(self@)[i]),
                ),
            is_strictly_sorted(self@) && module_name.spec_bytes().len() > 0 ==> info_view(r)
                == decode_entry(entry_literal(self@, module_name.spec_bytes())),
            info_view(r) == decode_entry(lookup_literal(self@, module_name.spec_bytes())),
    {
        match self.locate_literal(module_name.as_bytes()) {
            None => None,
            Some(b) => match ModuleInfo::from_tree(parse_json(b)) {
                Ok(info) => Some(info),
                Err(_) => None,
            },
        }
    }
}

} // verus!
