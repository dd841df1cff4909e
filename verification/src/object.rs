use vstd::prelude::*;

verus! {

use vstd::utf8::{valid_utf8, decode_utf8};
use vstd::string::*;
use crate::error::{DecodeError, DecodeErr};
use crate::stream::{
    ByteStream, read_null_terminated_string, string_from_utf8, spec_scan, spec_scan_rest,
    spec_consumed, lemma_scan_bounds, clone_bytes,
};
use crate::parse::{
    spec_split_header, split_header, spec_parse_usize, parse_usize, spec_parse_u32, parse_u32,
    spec_starts, strip_key, str_eq, spec_hex, hex_string,
};

// ------------------------------------------------------------------
// The object model and its spec-level views.
// ------------------------------------------------------------------

/// A decoded object: its hash, the size its own header declares (not checked
/// against the payload), and the decoded payload.
#[derive(Debug, PartialEq, Eq)]
pub struct Object {
    pub hash: String,
    pub object_size: usize,
    pub object_type: ObjectType,
}

/// The four object kinds, plus a fallback for unrecognized type tokens: an
/// unknown token is data, not an error, but its content is not decoded.
#[derive(Debug, PartialEq, Eq)]
pub enum ObjectType {
    Undefined,
    Blob(Blob),
    Tree(Tree),
    Commit(Commit),
    Tag(Tag),
}

/// Raw content; any byte sequence is valid.
#[derive(Debug, PartialEq, Eq)]
pub struct Blob {
    pub content: Vec<u8>,
}

/// An ordered list of entries, in on-disk order.
#[derive(Debug, PartialEq, Eq)]
pub struct Tree {
    pub entries: Vec<TreeEntry>,
}

/// One tree entry: mode, name, and the hex hash of the entry's object.
#[derive(Debug, PartialEq, Eq)]
pub struct TreeEntry {
    pub mode: u32,
    pub name: String,
    pub hash: String,
}

/// A commit: its tree, its parents in declaration order, author, committer,
/// and message.
#[derive(Debug, PartialEq, Eq)]
pub struct Commit {
    pub tree: String,
    pub parents: Vec<String>,
    pub author: String,
    pub committer: String,
    pub message: String,
}

/// An annotated tag.
#[derive(Debug, PartialEq, Eq)]
pub struct Tag {
    pub object: String,
    pub object_type: String,
    pub tag: String,
    pub tagger: String,
    pub message: String,
}

#[verifier::ext_equal]
pub struct ObjectView {
    pub hash: Seq<char>,
    pub object_size: usize,
    pub object_type: ObjectTypeView,
}

#[verifier::ext_equal]
pub enum ObjectTypeView {
    Undefined,
    Blob(BlobView),
    Tree(TreeView),
    Commit(CommitView),
    Tag(TagView),
}

#[verifier::ext_equal]
pub struct BlobView {
    pub content: Seq<u8>,
}

#[verifier::ext_equal]
pub struct TreeView {
    pub entries: Seq<TreeEntryView>,
}

#[verifier::ext_equal]
pub struct TreeEntryView {
    pub mode: u32,
    pub name: Seq<char>,
    pub hash: Seq<char>,
}

#[verifier::ext_equal]
pub struct CommitView {
    pub tree: Seq<char>,
    pub parents: Seq<Seq<char>>,
    pub author: Seq<char>,
    pub committer: Seq<char>,
    pub message: Seq<char>,
}

#[verifier::ext_equal]
pub struct TagView {
    pub object: Seq<char>,
    pub object_type: Seq<char>,
    pub tag: Seq<char>,
    pub tagger: Seq<char>,
    pub message: Seq<char>,
}

impl View for Blob {
    type V = BlobView;

    open spec fn view(&self) -> BlobView {
        BlobView { content: self.content@ }
    }
}

impl View for TreeEntry {
    type V = TreeEntryView;

    open spec fn view(&self) -> TreeEntryView {
        TreeEntryView { mode: self.mode, name: self.name@, hash: self.hash@ }
    }
}

impl DeepView for TreeEntry {
    type V = TreeEntryView;

    open spec fn deep_view(&self) -> TreeEntryView {
        self.view()
    }
}

impl View for Tree {
    type V = TreeView;

    open spec fn view(&self) -> TreeView {
        TreeView { entries: self.entries.deep_view() }
    }
}

impl View for Commit {
    type V = CommitView;

    open spec fn view(&self) -> CommitView {
        CommitView {
            tree: self.tree@,
            parents: self.parents.deep_view(),
            author: self.author@,
            committer: self.committer@,
            message: self.message@,
        }
    }
}

impl View for Tag {
    type V = TagView;

    open spec fn view(&self) -> TagView {
        TagView {
            object: self.object@,
            object_type: self.object_type@,
            tag: self.tag@,
            tagger: self.tagger@,
            message: self.message@,
        }
    }
}

impl View for ObjectType {
    type V = ObjectTypeView;

    open spec fn view(&self) -> ObjectTypeView {
        match self {
            ObjectType::Undefined => ObjectTypeView::Undefined,
            ObjectType::Blob(b) => ObjectTypeView::Blob(b@),
            ObjectType::Tree(t) => ObjectTypeView::Tree(t@),
            ObjectType::Commit(c) => ObjectTypeView::Commit(c@),
            ObjectType::Tag(t) => ObjectTypeView::Tag(t@),
        }
    }
}

impl View for Object {
    type V = ObjectView;

    open spec fn view(&self) -> ObjectView {
        ObjectView { hash: self.hash@, object_size: self.object_size, object_type: self.object_type@ }
    }
}

impl DeepView for Object {
    type V = ObjectView;

    open spec fn deep_view(&self) -> ObjectView {
        self.view()
    }
}

/// The type token that names each payload kind.
pub open spec fn spec_type_name(t: ObjectTypeView) -> Seq<char> {
    match t {
        ObjectTypeView::Undefined => "undefined"@,
        ObjectTypeView::Blob(_) => "blob"@,
        ObjectTypeView::Tree(_) => "tree"@,
        ObjectTypeView::Commit(_) => "commit"@,
        ObjectTypeView::Tag(_) => "tag"@,
    }
}

// ------------------------------------------------------------------
// Spec-level decoding: lines.
// ------------------------------------------------------------------

/// The payload split at newlines: each line without its newline; a trailing
/// newline opens no extra empty line.
pub open spec fn spec_lines(s: Seq<u8>) -> Seq<Seq<u8>>
    decreases s.len() via spec_lines_decreases
{
    if s.len() == 0 {
        Seq::empty()
    } else {
        seq![spec_scan(s, 10)] + spec_lines(spec_scan_rest(s, 10))
    }
}

#[via_fn]
proof fn spec_lines_decreases(s: Seq<u8>) {
    lemma_scan_bounds(s, 10);
}

// ------------------------------------------------------------------
// Spec-level decoding: commit.
// ------------------------------------------------------------------

/// The state of the line-by-line commit parse: fields seen so far, the message
/// collected so far, and whether the blank line ending the headers has passed.
#[verifier::ext_equal]
pub struct CommitAcc {
    pub tree: Option<Seq<char>>,
    pub parents: Seq<Seq<char>>,
    pub author: Option<Seq<char>>,
    pub committer: Option<Seq<char>>,
    pub message: Seq<char>,
    pub in_message: bool,
}

pub open spec fn commit_acc_init() -> CommitAcc {
    CommitAcc {
        tree: None,
        parents: Seq::empty(),
        author: None,
        committer: None,
        message: Seq::empty(),
        in_message: false,
    }
}

/// One line of commit text folded into the parse state; `None` when the line
/// is not valid UTF-8.
pub open spec fn commit_step(a: CommitAcc, line: Seq<u8>) -> Option<CommitAcc> {
    if !valid_utf8(line) {
        None
    } else {
        let l = decode_utf8(line);
        if a.in_message {
            Some(CommitAcc { message: a.message + l + seq!['\n'], ..a })
        } else if l.len() == 0 {
            Some(CommitAcc { in_message: true, ..a })
        } else if spec_starts(l, "tree "@) {
            Some(CommitAcc { tree: Some(l.skip("tree "@.len() as int)), ..a })
        } else if spec_starts(l, "parent "@) {
            Some(CommitAcc { parents: a.parents.push(l.skip("parent "@.len() as int)), ..a })
        } else if spec_starts(l, "author "@) {
            Some(CommitAcc { author: Some(l.skip("author "@.len() as int)), ..a })
        } else if spec_starts(l, "committer "@) {
            Some(CommitAcc { committer: Some(l.skip("committer "@.len() as int)), ..a })
        } else {
            Some(a)
        }
    }
}

pub open spec fn commit_fold(lines: Seq<Seq<u8>>) -> Option<CommitAcc>
    decreases lines.len(),
{
    if lines.len() == 0 {
        Some(commit_acc_init())
    } else {
        match commit_fold(lines.drop_last()) {
            None => None,
            Some(a) => commit_step(a, lines.last()),
        }
    }
}

/// Once a line fails to fold, the whole payload fails.
proof fn lemma_commit_fold_none(lines: Seq<Seq<u8>>, j: int)
    requires
        0 <= j <= lines.len(),
        commit_fold(lines.take(j)) == None::<CommitAcc>,
    ensures
        commit_fold(lines) == None::<CommitAcc>,
    decreases lines.len() - j,
{
    if j == lines.len() {
        assert(lines.take(j) =~= lines);
    } else {
        assert(lines.take(j + 1).drop_last() =~= lines.take(j));
        lemma_commit_fold_none(lines, j + 1);
    }
}

/// The final check of a commit parse: at least one parent, and the three
/// required single fields, checked in this order.
pub open spec fn commit_finish(a: CommitAcc) -> Result<CommitView, DecodeErr> {
    if a.parents.len() == 0 {
        Err(DecodeErr::MissingField("parents"@))
    } else {
        match (a.tree, a.author, a.committer) {
            (None, _, _) => Err(DecodeErr::MissingField("tree"@)),
            (Some(_), None, _) => Err(DecodeErr::MissingField("author"@)),
            (Some(_), Some(_), None) => Err(DecodeErr::MissingField("committer"@)),
            (Some(t), Some(au), Some(c)) => Ok(
                CommitView {
                    tree: t,
                    parents: a.parents,
                    author: au,
                    committer: c,
                    message: a.message,
                },
            ),
        }
    }
}

/// What a commit payload decodes to.
pub open spec fn spec_commit(s: Seq<u8>) -> Result<CommitView, DecodeErr> {
    match commit_fold(spec_lines(s)) {
        None => Err(DecodeErr::MalformedEncoding),
        Some(a) => commit_finish(a),
    }
}

// ------------------------------------------------------------------
// Spec-level decoding: tag.
// ------------------------------------------------------------------

/// The state of the line-by-line tag parse.
#[verifier::ext_equal]
pub struct TagAcc {
    pub object: Option<Seq<char>>,
    pub object_type: Option<Seq<char>>,
    pub tag: Option<Seq<char>>,
    pub tagger: Option<Seq<char>>,
    pub message: Seq<char>,
    pub in_message: bool,
}

pub open spec fn tag_acc_init() -> TagAcc {
    TagAcc {
        object: None,
        object_type: None,
        tag: None,
        tagger: None,
        message: Seq::empty(),
        in_message: false,
    }
}

/// One line of tag text folded into the parse state; `None` when the line is
/// not valid UTF-8.
pub open spec fn tag_step(a: TagAcc, line: Seq<u8>) -> Option<TagAcc> {
    if !valid_utf8(line) {
        None
    } else {
        let l = decode_utf8(line);
        if a.in_message {
            Some(TagAcc { message: a.message + l + seq!['\n'], ..a })
        } else if l.len() == 0 {
            Some(TagAcc { in_message: true, ..a })
        } else if spec_starts(l, "object "@) {
            Some(TagAcc { object: Some(l.skip("object "@.len() as int)), ..a })
        } else if spec_starts(l, "type "@) {
            Some(TagAcc { object_type: Some(l.skip("type "@.len() as int)), ..a })
        } else if spec_starts(l, "tag "@) {
            Some(TagAcc { tag: Some(l.skip("tag "@.len() as int)), ..a })
        } else if spec_starts(l, "tagger "@) {
            Some(TagAcc { tagger: Some(l.skip("tagger "@.len() as int)), ..a })
        } else {
            Some(a)
        }
    }
}

pub open spec fn tag_fold(lines: Seq<Seq<u8>>) -> Option<TagAcc>
    decreases lines.len(),
{
    if lines.len() == 0 {
        Some(tag_acc_init())
    } else {
        match tag_fold(lines.drop_last()) {
            None => None,
            Some(a) => tag_step(a, lines.last()),
        }
    }
}

proof fn lemma_tag_fold_none(lines: Seq<Seq<u8>>, j: int)
    requires
        0 <= j <= lines.len(),
        tag_fold(lines.take(j)) == None::<TagAcc>,
    ensures
        tag_fold(lines) == None::<TagAcc>,
    decreases lines.len() - j,
{
    if j == lines.len() {
        assert(lines.take(j) =~= lines);
    } else {
        assert(lines.take(j + 1).drop_last() =~= lines.take(j));
        lemma_tag_fold_none(lines, j + 1);
    }
}

/// The final check of a tag parse: the four required fields, in this order.
pub open spec fn tag_finish(a: TagAcc) -> Result<TagView, DecodeErr> {
    match (a.object, a.object_type, a.tag, a.tagger) {
        (None, _, _, _) => Err(DecodeErr::MissingField("object"@)),
        (Some(_), None, _, _) => Err(DecodeErr::MissingField("type"@)),
        (Some(_), Some(_), None, _) => Err(DecodeErr::MissingField("tag"@)),
        (Some(_), Some(_), Some(_), None) => Err(DecodeErr::MissingField("tagger"@)),
        (Some(o), Some(ot), Some(t), Some(tg)) => Ok(
            TagView { object: o, object_type: ot, tag: t, tagger: tg, message: a.message },
        ),
    }
}

/// What a tag payload decodes to.
pub open spec fn spec_tag(s: Seq<u8>) -> Result<TagView, DecodeErr> {
    match tag_fold(spec_lines(s)) {
        None => Err(DecodeErr::MalformedEncoding),
        Some(a) => tag_finish(a),
    }
}

// ------------------------------------------------------------------
// Spec-level decoding: tree.
// ------------------------------------------------------------------

/// One tree entry read from the front of `s`: `Ok(None)` when the stream ends
/// here (an empty header token), otherwise the entry and how many bytes it
/// consumed. The entry header is `<mode> <name>` terminated by a nul, followed
/// by the entry's raw 20-byte hash.
pub open spec fn spec_tree_entry(s: Seq<u8>) -> Result<Option<(TreeEntryView, int)>, DecodeErr> {
    let tok = spec_scan(s, 0);
    let c0 = spec_consumed(s, 0);
    let rest = spec_scan_rest(s, 0);
    if tok.len() == 0 {
        Ok(None)
    } else if !valid_utf8(tok) {
        Err(DecodeErr::MalformedEncoding)
    } else {
        match spec_split_header(decode_utf8(tok)) {
            None => Err(DecodeErr::MalformedEntry),
            Some((m, name)) => match spec_parse_u32(m) {
                None => Err(DecodeErr::MalformedEntry),
                Some(mode) => {
                    if rest.len() < 20 {
                        Err(DecodeErr::MalformedEntry)
                    } else {
                        Ok(
                            Some(
                                (
                                    TreeEntryView { mode, name, hash: spec_hex(rest.take(20)) },
                                    c0 + 20,
                                ),
                            ),
                        )
                    }
                },
            },
        }
    }
}

/// What a tree payload decodes to: the entries in byte order of occurrence.
pub open spec fn spec_tree(s: Seq<u8>) -> Result<Seq<TreeEntryView>, DecodeErr>
    decreases s.len() via spec_tree_decreases
{
    match spec_tree_entry(s) {
        Err(e) => Err(e),
        Ok(None) => Ok(Seq::empty()),
        Ok(Some((v, c))) => match spec_tree(s.skip(c)) {
            Err(e) => Err(e),
            Ok(es) => Ok(seq![v] + es),
        },
    }
}

#[via_fn]
proof fn spec_tree_decreases(s: Seq<u8>) {
    lemma_scan_bounds(s, 0);
}

// ------------------------------------------------------------------
// Spec-level decoding: whole objects.
// ------------------------------------------------------------------

/// What a payload decodes to under a given type token.
pub open spec fn spec_payload(ty: Seq<char>, rest: Seq<u8>) -> Result<ObjectTypeView, DecodeErr> {
    if ty == "blob"@ {
        Ok(ObjectTypeView::Blob(BlobView { content: rest }))
    } else if ty == "tree"@ {
        match spec_tree(rest) {
            Ok(es) => Ok(ObjectTypeView::Tree(TreeView { entries: es })),
            Err(e) => Err(e),
        }
    } else if ty == "commit"@ {
        match spec_commit(rest) {
            Ok(c) => Ok(ObjectTypeView::Commit(c)),
            Err(e) => Err(e),
        }
    } else if ty == "tag"@ {
        match spec_tag(rest) {
            Ok(t) => Ok(ObjectTypeView::Tag(t)),
            Err(e) => Err(e),
        }
    } else {
        Ok(ObjectTypeView::Undefined)
    }
}

/// What a whole decompressed stream decodes to: a nul-terminated
/// `<type> <size>` header, then the payload under that type. The declared
/// size is parsed but not checked against the payload.
pub open spec fn spec_decode(hash: Seq<char>, s: Seq<u8>) -> Result<ObjectView, DecodeErr> {
    let tok = spec_scan(s, 0);
    let rest = spec_scan_rest(s, 0);
    if !valid_utf8(tok) {
        Err(DecodeErr::MalformedEncoding)
    } else {
        match spec_split_header(decode_utf8(tok)) {
            None => Err(DecodeErr::MalformedHeader),
            Some((ty, sz)) => match spec_parse_usize(sz) {
                None => Err(DecodeErr::MalformedHeader),
                Some(size) => match spec_payload(ty, rest) {
                    Err(e) => Err(e),
                    Ok(p) => Ok(ObjectView { hash: hash, object_size: size, object_type: p }),
                },
            },
        }
    }
}

// ------------------------------------------------------------------
// Executable decoding.
// ------------------------------------------------------------------

/// Splits a payload into its lines, per `spec_lines`.
fn split_lines(data: &Vec<u8>) -> (r: Vec<Vec<u8>>)
    ensures
        r.deep_view() == spec_lines(data@),
{
    let mut r: Vec<Vec<u8>> = Vec::new();
    let mut stream = ByteStream::new(clone_bytes(data));
    proof {
        assert(spec_lines(data@) =~= r.deep_view() + spec_lines(stream.remaining()));
    }
    while stream.remaining_len() > 0
        invariant
            stream.wf(),
            spec_lines(data@) == r.deep_view() + spec_lines(stream.remaining()),
        decreases stream.remaining().len(),
    {
        let ghost pre = stream.remaining();
        let ghost acc = r.deep_view();
        let line = stream.read_scan(10);
        proof {
            lemma_scan_bounds(pre, 10);
            assert(spec_lines(pre) == seq![spec_scan(pre, 10)] + spec_lines(spec_scan_rest(pre, 10)));
        }
        r.push(line);
        proof {
            assert(r.deep_view() =~~= acc.push(spec_scan(pre, 10)));
            assert(acc.push(spec_scan(pre, 10)) + spec_lines(stream.remaining()) =~~= acc + spec_lines(pre));
        }
    }
    proof {
        assert(r.deep_view() + spec_lines(stream.remaining()) =~= r.deep_view());
    }
    r
}

impl Blob {
    /// Reads the rest of the stream verbatim; never fails.
    pub fn from_reader(reader: &mut ByteStream) -> (r: Result<Blob, DecodeError>)
        requires
            old(reader).wf(),
        ensures
            final(reader).wf(),
            match r {
                Ok(b) => b@.content == old(reader).remaining(),
                Err(_) => false,
            },
    {
        let content = reader.read_to_end();
        Ok(Blob { content })
    }
}

impl TreeEntry {
    /// Reads one tree entry, or `None` at an empty header token (the
    /// end-of-entries signal), per `spec_tree_entry`.
    pub fn from_reader(reader: &mut ByteStream) -> (r: Result<Option<TreeEntry>, DecodeError>)
        requires
            old(reader).wf(),
        ensures
            final(reader).wf(),
            match r {
                Ok(None) => spec_tree_entry(old(reader).remaining()) == Ok::<Option<(TreeEntryView, int)>, DecodeErr>(None),
                Ok(Some(entry)) => spec_tree_entry(old(reader).remaining()) matches Ok(Some((v, c)))
                    && entry@ == v && final(reader).remaining() == old(reader).remaining().skip(c),
                Err(e) => spec_tree_entry(old(reader).remaining()) == Err::<Option<(TreeEntryView, int)>, DecodeErr>(e@),
            },
    {
        let ghost s0 = old(reader).remaining();
        let header = match read_null_terminated_string(reader) {
            Ok(h) => h,
            Err(e) => {
                return Err(e);
            },
        };
        if header.as_str().is_empty() {
            return Ok(None);
        }
        let (mode_tok, name) = match split_header(header.as_str()) {
            Some(p) => p,
            None => {
                return Err(DecodeError::MalformedEntry);
            },
        };
        let mode = match parse_u32(mode_tok.as_str()) {
            Some(m) => m,
            None => {
                return Err(DecodeError::MalformedEntry);
            },
        };
        let raw = match reader.read_exact(20) {
            Some(v) => v,
            None => {
                return Err(DecodeError::MalformedEntry);
            },
        };
        let hash = hex_string(&raw);
        proof {
            lemma_scan_bounds(s0, 0);
            assert(spec_scan_rest(s0, 0).take(20) =~= raw@);
            assert(final(reader).remaining() =~= s0.skip(spec_consumed(s0, 0) + 20));
        }
        Ok(Some(TreeEntry { mode, name, hash }))
    }
}

impl Tree {
    /// Reads tree entries until the end-of-entries signal, per `spec_tree`.
    pub fn from_reader(reader: &mut ByteStream) -> (r: Result<Tree, DecodeError>)
        requires
            old(reader).wf(),
        ensures
            final(reader).wf(),
            match r {
                Ok(t) => spec_tree(old(reader).remaining()) == Ok::<Seq<TreeEntryView>, DecodeErr>(t@.entries),
                Err(e) => spec_tree(old(reader).remaining()) == Err::<Seq<TreeEntryView>, DecodeErr>(e@),
            },
    {
        let ghost s0 = old(reader).remaining();
        let mut entries: Vec<TreeEntry> = Vec::new();
        proof {
            assert(entries.deep_view() =~= Seq::<TreeEntryView>::empty());
        }
        loop
            invariant_except_break
                reader.wf(),
                s0 == old(reader).remaining(),
                (match spec_tree(reader.remaining()) {
                    Ok(es) => spec_tree(s0) == Ok::<Seq<TreeEntryView>, DecodeErr>(entries.deep_view() + es),
                    Err(e) => spec_tree(s0) == Err::<Seq<TreeEntryView>, DecodeErr>(e),
                }),
            ensures
                reader.wf(),
                s0 == old(reader).remaining(),
                spec_tree(s0) == Ok::<Seq<TreeEntryView>, DecodeErr>(entries.deep_view()),
            decreases reader.remaining().len(),
        {
            let ghost pre = reader.remaining();
            let ghost acc = entries.deep_view();
            match TreeEntry::from_reader(reader) {
                Err(e) => {
                    proof {
                        assert(spec_tree(pre) == Err::<Seq<TreeEntryView>, DecodeErr>(e@));
                    }
                    return Err(e);
                },
                Ok(None) => {
                    proof {
                        assert(spec_tree(pre) == Ok::<Seq<TreeEntryView>, DecodeErr>(Seq::empty()));
                        assert(acc + Seq::<TreeEntryView>::empty() =~= acc);
                    }
                    break;
                },
                Ok(Some(entry)) => {
                    proof {
                        let (v, c) = spec_tree_entry(pre)->Ok_0->Some_0;
                        lemma_scan_bounds(pre, 0);
                        assert(1 <= c <= pre.len());
                        assert(reader.remaining() == pre.skip(c));
                        assert(reader.remaining().len() < pre.len());
                        assert(spec_tree(pre) == match spec_tree(pre.skip(c)) {
                            Err(e) => Err::<Seq<TreeEntryView>, DecodeErr>(e),
                            Ok(es) => Ok::<Seq<TreeEntryView>, DecodeErr>(seq![v] + es),
                        });
                    }
                    entries.push(entry);
                    proof {
                        let (v, c) = spec_tree_entry(pre)->Ok_0->Some_0;
                        assert(entries.deep_view() =~~= acc.push(v));
                        match spec_tree(reader.remaining()) {
                            Ok(es) => {
                                assert(acc + (seq![v] + es) =~~= acc.push(v) + es);
                            },
                            Err(_) => {},
                        }
                    }
                },
            }
        }
        Ok(Tree { entries })
    }
}

/// Builds a `CommitAcc` from its parts.
pub open spec fn commit_acc(
    tree: Option<Seq<char>>,
    parents: Seq<Seq<char>>,
    author: Option<Seq<char>>,
    committer: Option<Seq<char>>,
    message: Seq<char>,
    in_message: bool,
) -> CommitAcc {
    CommitAcc { tree, parents, author, committer, message, in_message }
}

impl Commit {
    /// Parses commit text line by line, per `spec_commit`.
    pub fn from_reader(reader: &mut ByteStream) -> (r: Result<Commit, DecodeError>)
        requires
            old(reader).wf(),
        ensures
            final(reader).wf(),
            match r {
                Ok(c) => spec_commit(old(reader).remaining()) == Ok::<CommitView, DecodeErr>(c@),
                Err(e) => spec_commit(old(reader).remaining()) == Err::<CommitView, DecodeErr>(e@),
            },
    {
        let ghost s0 = old(reader).remaining();
        let data = reader.read_to_end();
        let lines = split_lines(&data);
        let ghost lv = lines.deep_view();
        let mut tree_f: Option<String> = None;
        let mut parents: Vec<String> = Vec::new();
        let mut author_f: Option<String> = None;
        let mut committer_f: Option<String> = None;
        let mut message = String::new();
        let mut in_message = false;
        let mut i: usize = 0;
        proof {
            assert(lv.take(0) =~= Seq::<Seq<u8>>::empty());
            assert(commit_acc(
                tree_f.deep_view(),
                parents.deep_view(),
                author_f.deep_view(),
                committer_f.deep_view(),
                message@,
                in_message,
            ) =~~= commit_acc_init());
        }
        while i < lines.len()
            invariant
                i <= lines@.len(),
                reader.wf(),
                s0 == old(reader).remaining(),
                lv == lines.deep_view(),
                lv == spec_lines(s0),
                commit_fold(lv.take(i as int)) == Some(
                    commit_acc(
                        tree_f.deep_view(),
                        parents.deep_view(),
                        author_f.deep_view(),
                        committer_f.deep_view(),
                        message@,
                        in_message,
                    ),
                ),
            decreases lines@.len() - i,
        {
            let ghost acc_pre = commit_acc(
                tree_f.deep_view(),
                parents.deep_view(),
                author_f.deep_view(),
                committer_f.deep_view(),
                message@,
                in_message,
            );
            let ghost l = lv[i as int];
            proof {
                assert(lines[i as int]@ =~= l);
            }
            let line_s = match string_from_utf8(&lines[i]) {
                Some(s) => s,
                None => {
                    proof {
                        assert(commit_step(acc_pre, l) == None::<CommitAcc>);
                        assert(lv.take(i + 1).drop_last() =~= lv.take(i as int));
                        assert(lv.take(i + 1).last() == l);
                        assert(commit_fold(lv.take(i + 1)) == None::<CommitAcc>);
                        lemma_commit_fold_none(lv, i + 1);
                    }
                    return Err(DecodeError::MalformedEncoding);
                },
            };
            if in_message {
                message.append(line_s.as_str());
                message.append("\n");
                proof {
                    reveal_strlit("\n");
                    assert("\n"@ =~= seq!['\n']);
                }
            } else if line_s.as_str().is_empty() {
                in_message = true;
            } else {
                let ghost parents_pre = parents.deep_view();
                match strip_key(line_s.as_str(), "tree ") {
                    Some(v) => {
                        tree_f = Some(v);
                    },
                    None => match strip_key(line_s.as_str(), "parent ") {
                        Some(v) => {
                            parents.push(v);
                            proof {
                                assert(parents.deep_view() =~~= parents_pre.push(
                                    decode_utf8(l).skip("parent "@.len() as int),
                                ));
                            }
                        },
                        None => match strip_key(line_s.as_str(), "author ") {
                            Some(v) => {
                                author_f = Some(v);
                            },
                            None => match strip_key(line_s.as_str(), "committer ") {
                                Some(v) => {
                                    committer_f = Some(v);
                                },
                                None => {},
                            },
                        },
                    },
                }
            }
            proof {
                let acc_post = commit_acc(
                    tree_f.deep_view(),
                    parents.deep_view(),
                    author_f.deep_view(),
                    committer_f.deep_view(),
                    message@,
                    in_message,
                );
                assert(commit_step(acc_pre, l) matches Some(x) && x =~~= acc_post);
                assert(lv.take(i + 1).drop_last() =~= lv.take(i as int));
                assert(lv.take(i + 1).last() == l);
                assert(commit_fold(lv.take(i + 1)) == Some(acc_post));
            }
            i = i + 1;
        }
        proof {
            assert(lv.take(lines@.len() as int) =~= lv);
            assert(data@ == s0);
        }
        if parents.len() == 0 {
            proof {
                assert(parents.deep_view().len() == 0);
            }
            return Err(DecodeError::MissingField(String::from_str("parents")));
        }
        proof {
            assert(parents.deep_view().len() > 0);
        }
        let tree = match tree_f {
            Some(t) => t,
            None => {
                return Err(DecodeError::MissingField(String::from_str("tree")));
            },
        };
        let author = match author_f {
            Some(a) => a,
            None => {
                return Err(DecodeError::MissingField(String::from_str("author")));
            },
        };
        let committer = match committer_f {
            Some(c) => c,
            None => {
                return Err(DecodeError::MissingField(String::from_str("committer")));
            },
        };
        let result = Commit { tree, parents, author, committer, message };
        proof {
            assert(spec_commit(s0) matches Ok(cv) && cv =~~= result@);
        }
        Ok(result)
    }
}

/// Builds a `TagAcc` from its parts.
pub open spec fn tag_acc(
    object: Option<Seq<char>>,
    object_type: Option<Seq<char>>,
    tag: Option<Seq<char>>,
    tagger: Option<Seq<char>>,
    message: Seq<char>,
    in_message: bool,
) -> TagAcc {
    TagAcc { object, object_type, tag, tagger, message, in_message }
}

impl Tag {
    /// Parses tag text line by line, per `spec_tag`.
    pub fn from_reader(reader: &mut ByteStream) -> (r: Result<Tag, DecodeError>)
        requires
            old(reader).wf(),
        ensures
            final(reader).wf(),
            match r {
                Ok(t) => spec_tag(old(reader).remaining()) == Ok::<TagView, DecodeErr>(t@),
                Err(e) => spec_tag(old(reader).remaining()) == Err::<TagView, DecodeErr>(e@),
            },
    {
        let ghost s0 = old(reader).remaining();
        let data = reader.read_to_end();
        let lines = split_lines(&data);
        let ghost lv = lines.deep_view();
        let mut object_f: Option<String> = None;
        let mut type_f: Option<String> = None;
        let mut tag_f: Option<String> = None;
        let mut tagger_f: Option<String> = None;
        let mut message = String::new();
        let mut in_message = false;
        let mut i: usize = 0;
        proof {
            assert(lv.take(0) =~= Seq::<Seq<u8>>::empty());
            assert(tag_acc(
                object_f.deep_view(),
                type_f.deep_view(),
                tag_f.deep_view(),
                tagger_f.deep_view(),
                message@,
                in_message,
            ) =~~= tag_acc_init());
        }
        while i < lines.len()
            invariant
                i <= lines@.len(),
                reader.wf(),
                s0 == old(reader).remaining(),
                lv == lines.deep_view(),
                lv == spec_lines(s0),
                tag_fold(lv.take(i as int)) == Some(
                    tag_acc(
                        object_f.deep_view(),
                        type_f.deep_view(),
                        tag_f.deep_view(),
                        tagger_f.deep_view(),
                        message@,
                        in_message,
                    ),
                ),
            decreases lines@.len() - i,
        {
            let ghost acc_pre = tag_acc(
                object_f.deep_view(),
                type_f.deep_view(),
                tag_f.deep_view(),
                tagger_f.deep_view(),
                message@,
                in_message,
            );
            let ghost l = lv[i as int];
            proof {
                assert(lines[i as int]@ =~= l);
            }
            let line_s = match string_from_utf8(&lines[i]) {
                Some(s) => s,
                None => {
                    proof {
                        assert(tag_step(acc_pre, l) == None::<TagAcc>);
                        assert(lv.take(i + 1).drop_last() =~= lv.take(i as int));
                        assert(lv.take(i + 1).last() == l);
                        assert(tag_fold(lv.take(i + 1)) == None::<TagAcc>);
                        lemma_tag_fold_none(lv, i + 1);
                    }
                    return Err(DecodeError::MalformedEncoding);
                },
            };
            if in_message {
                message.append(line_s.as_str());
                message.append("\n");
                proof {
                    reveal_strlit("\n");
                    assert("\n"@ =~= seq!['\n']);
                }
            } else if line_s.as_str().is_empty() {
                in_message = true;
            } else {
                match strip_key(line_s.as_str(), "object ") {
                    Some(v) => {
                        object_f = Some(v);
                    },
                    None => match strip_key(line_s.as_str(), "type ") {
                        Some(v) => {
                            type_f = Some(v);
                        },
                        None => match strip_key(line_s.as_str(), "tag ") {
                            Some(v) => {
                                tag_f = Some(v);
                            },
                            None => match strip_key(line_s.as_str(), "tagger ") {
                                Some(v) => {
                                    tagger_f = Some(v);
                                },
                                None => {},
                            },
                        },
                    },
                }
            }
            proof {
                let acc_post = tag_acc(
                    object_f.deep_view(),
                    type_f.deep_view(),
                    tag_f.deep_view(),
                    tagger_f.deep_view(),
                    message@,
                    in_message,
                );
                assert(tag_step(acc_pre, l) matches Some(x) && x =~~= acc_post);
                assert(lv.take(i + 1).drop_last() =~= lv.take(i as int));
                assert(lv.take(i + 1).last() == l);
                assert(tag_fold(lv.take(i + 1)) == Some(acc_post));
            }
            i = i + 1;
        }
        proof {
            assert(lv.take(lines@.len() as int) =~= lv);
            assert(data@ == s0);
        }
        let object = match object_f {
            Some(o) => o,
            None => {
                return Err(DecodeError::MissingField(String::from_str("object")));
            },
        };
        let object_type = match type_f {
            Some(t) => t,
            None => {
                return Err(DecodeError::MissingField(String::from_str("type")));
            },
        };
        let tag = match tag_f {
            Some(t) => t,
            None => {
                return Err(DecodeError::MissingField(String::from_str("tag")));
            },
        };
        let tagger = match tagger_f {
            Some(t) => t,
            None => {
                return Err(DecodeError::MissingField(String::from_str("tagger")));
            },
        };
        let result = Tag { object, object_type, tag, tagger, message };
        proof {
            assert(spec_tag(s0) matches Ok(tv) && tv =~~= result@);
        }
        Ok(result)
    }
}

impl ObjectType {
    /// Decodes the payload for a type token: the four known kinds are parsed,
    /// an unknown token is `Undefined` and consumes nothing.
    pub fn new(object_type: &str, content_reader: &mut ByteStream) -> (r: Result<ObjectType, DecodeError>)
        requires
            old(content_reader).wf(),
        ensures
            final(content_reader).wf(),
            match r {
                Ok(t) => spec_payload(object_type@, old(content_reader).remaining())
                    == Ok::<ObjectTypeView, DecodeErr>(t@) && (t matches ObjectType::Undefined
                    ==> *final(content_reader) == *old(content_reader)),
                Err(e) => spec_payload(object_type@, old(content_reader).remaining())
                    == Err::<ObjectTypeView, DecodeErr>(e@),
            },
    {
        if str_eq(object_type, "blob") {
            match Blob::from_reader(content_reader) {
                Ok(b) => Ok(ObjectType::Blob(b)),
                Err(e) => Err(e),
            }
        } else if str_eq(object_type, "tree") {
            match Tree::from_reader(content_reader) {
                Ok(t) => Ok(ObjectType::Tree(t)),
                Err(e) => Err(e),
            }
        } else if str_eq(object_type, "commit") {
            match Commit::from_reader(content_reader) {
                Ok(c) => Ok(ObjectType::Commit(c)),
                Err(e) => Err(e),
            }
        } else if str_eq(object_type, "tag") {
            match Tag::from_reader(content_reader) {
                Ok(t) => Ok(ObjectType::Tag(t)),
                Err(e) => Err(e),
            }
        } else {
            Ok(ObjectType::Undefined)
        }
    }

    /// The name of this payload's kind.
    pub fn as_str(&self) -> (r: &str)
        ensures
            r@ == spec_type_name(self@),
    {
        match self {
            ObjectType::Undefined => "undefined",
            ObjectType::Blob(_) => "blob",
            ObjectType::Tree(_) => "tree",
            ObjectType::Commit(_) => "commit",
            ObjectType::Tag(_) => "tag",
        }
    }
}

impl Object {
    /// Decodes one object from a decompressed stream, per `spec_decode`: a
    /// nul-terminated `<type> <size>` header (the size parsed first), then
    /// the typed payload. An unrecognized type token consumes no payload
    /// bytes: the stream stands just past the header.
    pub fn from_reader(hash: String, reader: &mut ByteStream) -> (r: Result<Object, DecodeError>)
        requires
            old(reader).wf(),
        ensures
            final(reader).wf(),
            match r {
                Ok(o) => spec_decode(hash@, old(reader).remaining()) == Ok::<ObjectView, DecodeErr>(o@)
                    && (o.object_type matches ObjectType::Undefined ==> final(reader).remaining()
                    == spec_scan_rest(old(reader).remaining(), 0)),
                Err(e) => spec_decode(hash@, old(reader).remaining()) == Err::<ObjectView, DecodeErr>(e@),
            },
    {
        let header = match read_null_terminated_string(reader) {
            Ok(h) => h,
            Err(e) => {
                return Err(e);
            },
        };
        let (ty, sz) = match split_header(header.as_str()) {
            Some(p) => p,
            None => {
                return Err(DecodeError::MalformedHeader);
            },
        };
        let object_size = match parse_usize(sz.as_str()) {
            Some(v) => v,
            None => {
                return Err(DecodeError::MalformedHeader);
            },
        };
        let object_type = match ObjectType::new(ty.as_str(), reader) {
            Ok(t) => t,
            Err(e) => {
                return Err(e);
            },
        };
        Ok(Object { hash, object_size, object_type })
    }
}

} // verus!
