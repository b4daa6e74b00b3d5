use vstd::prelude::*;
use vstd::string::StrSliceExecFns;
use vstd::string::StringExecFns;
use crate::huffman::builder::{greedy, table_forest};
use crate::huffman::frequency::{in_first_occurrence_order, is_frequency_table};
use crate::huffman::shape::{Shape, distinct_leaves, record_views, records, unweighted};
use crate::huffman::tree::{HuffmanError, HuffmanTree, copy_path};

verus! {

/// `serde_json::Error`, carried through as an opaque value.
#[verifier::external_type_specification]
#[verifier::external_body]
pub struct ExJsonError(serde_json::Error);

/// `std::io::Error`, carried through as an opaque value.
#[verifier::external_type_specification]
#[verifier::external_body]
pub struct ExIoError(std::io::Error);

/// The JSON text of a boolean.
pub open spec fn json_of_bool(b: bool) -> Seq<char> {
    if b {
        seq!['t', 'r', 'u', 'e']
    } else {
        seq!['f', 'a', 'l', 's', 'e']
    }
}

/// The texts of `items` separated by commas.
pub open spec fn comma_joined(items: Seq<Seq<char>>) -> Seq<char>
    decreases items.len(),
{
    if items.len() == 0 {
        Seq::empty()
    } else if items.len() == 1 {
        items[0]
    } else {
        comma_joined(items.drop_last()) + seq![','] + items.last()
    }
}

/// A compact JSON array of the texts `items`.
pub open spec fn json_array(items: Seq<Seq<char>>) -> Seq<char> {
    seq!['['] + comma_joined(items) + seq![']']
}

/// The compact JSON text of a path: an array of booleans.
pub open spec fn json_of_path(p: Seq<bool>) -> Seq<char> {
    json_array(p.map_values(|b: bool| json_of_bool(b)))
}

/// The compact JSON text of a list of paths, as serde_json writes it.
pub open spec fn json_of_paths(p: Seq<Seq<bool>>) -> Seq<char> {
    json_array(p.map_values(|q: Seq<bool>| json_of_path(q)))
}

/// The list of paths that serde_json reads from a JSON text, if it reads one.
pub uninterp spec fn paths_of_json(s: Seq<char>) -> Option<Seq<Seq<bool>>>;

/// The JSON text that serde_json writes for a list of tree records.
pub uninterp spec fn json_of_key(k: Seq<Option<Seq<char>>>) -> Seq<char>;

/// The list of tree records that serde_json reads from a JSON text, if it
/// reads one.
pub uninterp spec fn key_of_json(s: Seq<char>) -> Option<Seq<Option<Seq<char>>>>;

/// Relies on `ToString` for `char`: the string of that one character.
#[verifier::external_body]
fn char_string(c: char) -> (r: String)
    ensures
        r@ == seq![c],
{
    c.to_string()
}

/// Relies on `serde_json::to_string` on a `Vec<Vec<bool>>`: its compact
/// JSON text. It cannot fail: no `Serialize` impl involved fails and there
/// is no map.
#[verifier::external_body]
fn paths_to_json(p: &Vec<Vec<bool>>) -> (r: Result<String, serde_json::Error>)
    ensures
        r is Ok,
        r matches Ok(s) ==> s@ == json_of_paths(p.deep_view()),
{
    serde_json::to_string(p)
}

/// Relies on `serde_json::from_str` into a `Vec<Vec<bool>>`: the paths the
/// text holds, or an error when it holds none.
#[verifier::external_body]
fn paths_from_json(s: &str) -> (r: Result<Vec<Vec<bool>>, serde_json::Error>)
    ensures
        r is Ok <==> paths_of_json(s@) is Some,
        r matches Ok(p) ==> paths_of_json(s@) == Some(p.deep_view()),
{
    serde_json::from_str(s)
}

/// Relies on `serde_json::to_string` on a `Vec<Option<String>>`: its JSON
/// text. It cannot fail: no `Serialize` impl involved fails and there is no
/// map.
#[verifier::external_body]
fn key_to_json(k: &Vec<Option<String>>) -> (r: Result<String, serde_json::Error>)
    ensures
        r is Ok,
        r matches Ok(s) ==> s@ == json_of_key(k.deep_view()),
{
    serde_json::to_string(k)
}

/// Relies on `serde_json::from_str` into a `Vec<Option<String>>`: the
/// records the text holds, or an error when it holds none.
#[verifier::external_body]
fn key_from_json(s: &str) -> (r: Result<Vec<Option<String>>, serde_json::Error>)
    ensures
        r is Ok <==> key_of_json(s@) is Some,
        r matches Ok(k) ==> key_of_json(s@) == Some(k.deep_view()),
{
    serde_json::from_str(s)
}

/// The failures of compressing and decompressing.
#[derive(Debug)]
pub enum GeneZipError {
    /// Building, encoding, decoding or restoring the tree failed.
    HuffmanError(HuffmanError),
    /// Reading or writing a file failed.
    IoError(std::io::Error),
    /// Writing or reading JSON failed.
    SerialzeError(serde_json::Error),
}

/// Each character of a text as a symbol of its own.
pub open spec fn char_symbols(text: Seq<char>) -> Seq<Seq<char>> {
    text.map_values(|c: char| seq![c])
}

/// The concatenated symbols that `paths` decode to against `t`, or the
/// error of the first path that does not decode.
pub open spec fn decode_all(t: HuffmanTree<String>, paths: Seq<Seq<bool>>) -> Result<Seq<char>, HuffmanError>
    decreases paths.len(),
{
    if paths.len() == 0 {
        Ok(Seq::empty())
    } else {
        match decode_all(t, paths.drop_last()) {
            Err(e) => Err(e),
            Ok(s) => match t.decode(paths.last()) {
                Ok(sym) => Ok(s + sym),
                Err(e) => Err(e),
            },
        }
    }
}

proof fn lemma_decode_all_err(t: HuffmanTree<String>, paths: Seq<Seq<bool>>, k: int, e: HuffmanError)
    requires
        0 <= k <= paths.len(),
        decode_all(t, paths.subrange(0, k)) == Err::<Seq<char>, HuffmanError>(e),
    ensures
        decode_all(t, paths) == Err::<Seq<char>, HuffmanError>(e),
    decreases paths.len() - k,
{
    if k < paths.len() {
        let q = paths.subrange(0, k + 1);
        assert(q.drop_last() == paths.subrange(0, k));
        lemma_decode_all_err(t, paths, k + 1, e);
    } else {
        assert(paths.subrange(0, k) == paths);
    }
}

/// A compressor or decompressor: the tree in use and the text it works on,
/// plain text to compress or the JSON paths to decompress.
pub struct GeneZipper {
    huffman: HuffmanTree<String>,
    target: String,
}

impl GeneZipper {
    pub open spec fn wf(&self) -> bool {
        self.tree().wf()
    }

    /// The tree in use.
    pub closed spec fn tree(&self) -> HuffmanTree<String> {
        self.huffman
    }

    /// The text worked on.
    pub closed spec fn target(&self) -> Seq<char> {
        self.target@
    }

    /// Prepares the compression of `text`, each character a symbol.
    pub fn for_compression(text: String) -> (r: Result<Self, HuffmanError>)
        ensures
            r is Err <==> text@.len() == 0,
            r matches Err(e) ==> e == HuffmanError::EmptyInputError,
            r matches Ok(z) ==> {
                &&& z.wf()
                &&& z.tree().wf()
                &&& z.target() == text@
                &&& z.tree().alphabet() == char_symbols(text@).to_set()
                &&& distinct_leaves(z.tree().shape())
                &&& exists|ft: Seq<(String, usize)>| #[trigger] is_frequency_table(ft, char_symbols(text@))
                    && in_first_occurrence_order(ft, char_symbols(text@))
                    && unweighted(greedy(table_forest(ft), (ft.len() - 1) as nat)[0]) == z.tree().shape()
            },
    {
        let n = text.as_str().unicode_len();
        let mut symbols: Vec<String> = Vec::new();
        let mut i: usize = 0;
        while i < n
            invariant
                n == text@.len(),
                i <= n,
                symbols@.map_values(|s: String| s@) == char_symbols(text@.subrange(0, i as int)),
            decreases n - i,
        {
            let c = text.as_str().get_char(i);
            let s = char_string(c);
            let ghost before = symbols@;
            symbols.push(s);
            assert(symbols@.map_values(|s: String| s@) =~= before.map_values(|s: String| s@).push(seq![c]));
            assert(char_symbols(text@.subrange(0, i as int + 1)) =~= char_symbols(text@.subrange(0, i as int)).push(seq![c]));
            i = i + 1;
        }
        assert(text@.subrange(0, n as int) == text@);
        let huffman = HuffmanTree::from_data(symbols.as_slice());
        match huffman {
            Ok(huffman) => Ok(GeneZipper { huffman, target: text }),
            Err(e) => Err(e),
        }
    }

    /// Prepares the decompression of `target`, a JSON list of paths, with
    /// the tree persisted as the JSON records `key`.
    pub fn for_decompression(target: String, key: &str) -> (r: Result<Self, GeneZipError>)
        ensures
            key_of_json(key@) is None ==> r matches Err(GeneZipError::SerialzeError(_)),
            key_of_json(key@) matches Some(k) ==> {
                &&& r is Ok <==> exists|sh: Shape<Seq<char>>| records(sh) == k
                &&& (r is Err ==> r matches Err(GeneZipError::HuffmanError(HuffmanError::MalformedTreeError)))
                &&& (r matches Ok(z) ==> z.wf() && z.tree().wf() && records(z.tree().shape()) == k && z.target() == target@)
            },
    {
        match key_from_json(key) {
            Err(e) => Err(GeneZipError::SerialzeError(e)),
            Ok(k) => {
                assert(record_views(k@) =~= k.deep_view());
                match HuffmanTree::from_records(&k) {
                    Ok(huffman) => Ok(GeneZipper { huffman, target }),
                    Err(e) => Err(GeneZipError::HuffmanError(e)),
                }
            },
        }
    }

    /// The code of each character of the text, in order; fails when a
    /// character is not in the alphabet of the tree.
    pub fn compress(&self) -> (r: Result<Vec<Vec<bool>>, HuffmanError>)
        requires
            self.wf(),
        ensures
            r is Ok <==> forall|i: int| 0 <= i < self.target().len() ==> self.tree().alphabet().contains(seq![self.target()[i]]),
            r matches Err(e) ==> e == HuffmanError::UnknownSymbolError,
            r matches Ok(p) ==> p.deep_view() == encode_all(self.tree(), self.target()),
    {
        let n = self.target.as_str().unicode_len();
        let mut res: Vec<Vec<bool>> = Vec::new();
        let mut i: usize = 0;
        while i < n
            invariant
                self.wf(),
                n == self.target@.len(),
                i <= n,
                forall|k: int| 0 <= k < i ==> self.tree().alphabet().contains(seq![self.target()[k]]),
                res.deep_view() == encode_all(self.tree(), self.target@.subrange(0, i as int)),
            decreases n - i,
        {
            let c = self.target.as_str().get_char(i);
            let s = char_string(c);
            match self.huffman.encode(&s) {
                Ok(code) => {
                    let ghost before = res.deep_view();
                    assert(code.deep_view() =~= code@);
                    res.push(code);
                    assert(res.deep_view() =~= before.push(code@));
                    assert(encode_all(self.tree(), self.target@.subrange(0, i as int + 1)) =~= encode_all(self.tree(), self.target@.subrange(0, i as int)).push(code@));
                },
                Err(e) => {
                    assert(!self.tree().alphabet().contains(seq![self.target()[i as int]]));
                    return Err(e);
                },
            }
            i = i + 1;
        }
        assert(self.target@.subrange(0, n as int) == self.target@);
        Ok(res)
    }

    /// The JSON text of the codes of the text.
    pub fn compress_to_json(&self) -> (r: Result<String, GeneZipError>)
        requires
            self.wf(),
        ensures
            r is Ok <==> forall|i: int| 0 <= i < self.target().len() ==> self.tree().alphabet().contains(seq![self.target()[i]]),
            r is Err ==> r matches Err(GeneZipError::HuffmanError(HuffmanError::UnknownSymbolError)),
            r matches Ok(s) ==> s@ == json_of_paths(encode_all(self.tree(), self.target())),
    {
        match self.compress() {
            Err(e) => Err(GeneZipError::HuffmanError(e)),
            Ok(p) => match paths_to_json(&p) {
                Ok(s) => Ok(s),
                Err(e) => Err(GeneZipError::SerialzeError(e)),
            },
        }
    }

    /// The JSON text of the records of the tree.
    pub fn key_json(&self) -> (r: Result<String, GeneZipError>)
        requires
            self.wf(),
        ensures
            r is Ok,
            r matches Ok(s) ==> s@ == json_of_key(records(self.tree().shape())),
    {
        let recs = self.huffman.to_records();
        assert(record_views(recs@) =~= recs.deep_view());
        match key_to_json(&recs) {
            Ok(s) => Ok(s),
            Err(e) => Err(GeneZipError::SerialzeError(e)),
        }
    }

    /// The text that `paths` decode to, symbol after symbol.
    pub fn decode_paths(&self, paths: &Vec<Vec<bool>>) -> (r: Result<String, HuffmanError>)
        requires
            self.wf(),
        ensures
            match r {
                Ok(s) => decode_all(self.tree(), paths.deep_view()) == Ok::<Seq<char>, HuffmanError>(s@),
                Err(e) => decode_all(self.tree(), paths.deep_view()) == Err::<Seq<char>, HuffmanError>(e),
            },
    {
        let ghost dv = paths.deep_view();
        let mut res = String::new();
        let mut i: usize = 0;
        while i < paths.len()
            invariant
                self.wf(),
                i <= paths@.len(),
                dv == paths.deep_view(),
                decode_all(self.tree(), dv.subrange(0, i as int)) == Ok::<Seq<char>, HuffmanError>(res@),
            decreases paths@.len() - i,
        {
            let ghost pre = dv.subrange(0, i as int);
            let ghost post = dv.subrange(0, i as int + 1);
            assert(post.drop_last() == pre);
            assert(paths@[i as int].deep_view() =~= paths@[i as int]@);
            assert(dv[i as int] == paths@[i as int].deep_view());
            assert(post.last() == paths@[i as int]@);
            let path = copy_path(&paths[i]);
            match self.huffman.get_to(path) {
                Ok(sym) => {
                    res.append(sym.as_str());
                },
                Err(e) => {
                    proof {
                        lemma_decode_all_err(self.tree(), dv, i as int + 1, e);
                    }
                    return Err(e);
                },
            }
            i = i + 1;
        }
        assert(dv.len() == paths@.len());
        assert(dv.subrange(0, paths@.len() as int) =~= dv);
        Ok(res)
    }

    /// Reads the JSON list of paths of the text and decodes it.
    pub fn decompress(&self) -> (r: Result<String, GeneZipError>)
        requires
            self.wf(),
        ensures
            paths_of_json(self.target()) is None ==> r matches Err(GeneZipError::SerialzeError(_)),
            paths_of_json(self.target()) matches Some(p) ==> match decode_all(self.tree(), p) {
                Ok(s) => (r matches Ok(t) && t@ == s),
                Err(e) => (r matches Err(GeneZipError::HuffmanError(e2)) && e2 == e),
            },
    {
        match paths_from_json(self.target.as_str()) {
            Err(e) => Err(GeneZipError::SerialzeError(e)),
            Ok(p) => match self.decode_paths(&p) {
                Ok(s) => Ok(s),
                Err(e) => Err(GeneZipError::HuffmanError(e)),
            },
        }
    }
}

/// The codes of the characters of `text` against `t`, in order.
pub open spec fn encode_all(t: HuffmanTree<String>, text: Seq<char>) -> Seq<Seq<bool>> {
    text.map_values(|c: char| t.code_of(seq![c])->0)
}


/// Text round trip: when every character of `text` is in the alphabet of
/// `t`, decoding the codes of its characters gives `text` back.
pub proof fn lemma_text_round_trip(t: HuffmanTree<String>, text: Seq<char>)
    requires
        t.wf(),
        forall|i: int| 0 <= i < text.len() ==> t.alphabet().contains(seq![text[i]]),
    ensures
        decode_all(t, encode_all(t, text)) == Ok::<Seq<char>, HuffmanError>(text),
    decreases text.len(),
{
    if text.len() > 0 {
        let init = text.drop_last();
        let c = text.last();
        assert(encode_all(t, text).drop_last() =~= encode_all(t, init));
        lemma_text_round_trip(t, init);
        assert(t.alphabet().contains(seq![text[text.len() - 1]]));
        t.lemma_round_trip(seq![c]);
        let e = encode_all(t, text);
        assert(e.last() == t.code_of(seq![c])->0);
        assert(t.decode(e.last()) == Ok::<Seq<char>, HuffmanError>(seq![c]));
        assert(init + seq![c] =~= text);
    } else {
        assert(encode_all(t, text).len() == 0);
        assert(text =~= Seq::<char>::empty());
    }
}

} // verus!
