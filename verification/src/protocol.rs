use vstd::prelude::*;

use vstd::utf8::encode_utf8;

use crate::codec::{
    bytes_frame, dec_bytes_at, dec_string_at, dec_u32_at, decode_bytes, decode_string, decode_u32,
    encode_bytes, encode_string, encode_u32, string_frame, u32_to_be,
};
use crate::errors::FumError;
use crate::hash::{Digest, DIGEST_LEN, compute_sha256, dup_bytes, hex_of, sha256_of, digest};
use crate::merkle::{
    fold_proof, get_proof, lemma_views_push, proof_entries, root_hash, root_of, sorted_leaves,
    verify_proof, views,
};

verus! {

/// Opcode selecting the upload operation.
pub const UPLOAD_OP: u8 = 0x01;

/// Opcode selecting the batch listing operation.
pub const LISTDIRS_OP: u8 = 0x02;

/// Opcode selecting the file listing operation.
pub const LISTFILES_OP: u8 = 0x03;

/// Opcode selecting the download operation.
pub const DOWNLOAD_OP: u8 = 0x04;

/// The four operations a request's first byte can select.
#[derive(Clone, Copy, Debug, PartialEq, Eq, Structural)]
pub enum Opcode {
    Upload,
    ListDirs,
    ListFiles,
    Download,
}

/// The operation an opcode byte selects; an unknown byte selects none.
pub fn parse_opcode(b: u8) -> (r: Option<Opcode>)
    ensures
        b == UPLOAD_OP ==> r == Some(Opcode::Upload),
        b == LISTDIRS_OP ==> r == Some(Opcode::ListDirs),
        b == LISTFILES_OP ==> r == Some(Opcode::ListFiles),
        b == DOWNLOAD_OP ==> r == Some(Opcode::Download),
        b != UPLOAD_OP && b != LISTDIRS_OP && b != LISTFILES_OP && b != DOWNLOAD_OP ==> r
            is None,
{
    if b == UPLOAD_OP {
        Some(Opcode::Upload)
    } else if b == LISTDIRS_OP {
        Some(Opcode::ListDirs)
    } else if b == LISTFILES_OP {
        Some(Opcode::ListFiles)
    } else if b == DOWNLOAD_OP {
        Some(Opcode::Download)
    } else {
        None
    }
}

/// One file of an upload batch: its name and its content.
#[derive(Debug)]
pub struct FileItem {
    pub file_name: String,
    pub bytes: Vec<u8>,
}

impl View for FileItem {
    type V = (Seq<char>, Seq<u8>);

    open spec fn view(&self) -> (Seq<char>, Seq<u8>) {
        (self.file_name@, self.bytes@)
    }
}

impl FileItem {
    /// A copy of the item.
    pub fn dup(&self) -> (r: FileItem)
        ensures
            r@ == self@,
    {
        FileItem { file_name: self.file_name.clone(), bytes: dup_bytes(&self.bytes) }
    }
}

/// The names and contents a sequence of file items holds.
pub open spec fn item_views(items: Seq<FileItem>) -> Seq<(Seq<char>, Seq<u8>)> {
    items.map_values(|f: FileItem| f@)
}

/// A restartable traversal of an upload batch: the items in a fixed
/// order, with a count established up front that iteration must agree
/// with.
pub struct UploadOp {
    pub files_count: u32,
    pub dir_path: String,
    pub files: Vec<FileItem>,
    pub next_index: usize,
}

impl UploadOp {
    /// The count names exactly the items.
    pub open spec fn wf(&self) -> bool {
        self.files_count as int == self.files@.len() && self.next_index <= self.files@.len()
    }

    /// The items not yet handed out, in order.
    pub open spec fn remaining(&self) -> Seq<(Seq<char>, Seq<u8>)> {
        item_views(self.files@.skip(self.next_index as int))
    }

    /// A traversal over `files`, whose length the caller has counted.
    pub fn new(files_count: u32, dir_path: String, files: Vec<FileItem>) -> (r: UploadOp)
        requires
            files@.len() == files_count as int,
        ensures
            r.wf(),
            r.files_count == files_count,
            r.dir_path@ == dir_path@,
            r.remaining() == item_views(files@),
    {
        let r = UploadOp { files_count, dir_path, files, next_index: 0 };
        proof {
            assert(r.files@.skip(0) =~= r.files@);
        }
        r
    }

    /// The next item, or nothing once the count is exhausted.
    pub fn next(&mut self) -> (r: Option<FileItem>)
        requires
            old(self).wf(),
        ensures
            final(self).wf(),
            final(self).files_count == old(self).files_count,
            final(self).dir_path@ == old(self).dir_path@,
            old(self).remaining().len() > 0 ==> (r matches Some(f) && f@ == old(self).remaining()[0]
                && final(self).remaining() == old(self).remaining().drop_first()),
            old(self).remaining().len() == 0 ==> r is None && final(self).remaining()
                == old(self).remaining(),
    {
        if self.next_index < self.files.len() {
            let f = self.files[self.next_index].dup();
            let ghost old_index = self.next_index as int;
            self.next_index = self.next_index + 1;
            proof {
                assert(self.files@.skip(old_index + 1) =~= self.files@.skip(old_index).drop_first());
                assert(self.remaining() =~= item_views(self.files@.skip(old_index)).drop_first());
            }
            Some(f)
        } else {
            None
        }
    }
}

/// The wire body of an upload batch: for each item a string frame with
/// the name, then a byte blob with the content.
pub open spec fn items_body(items: Seq<(Seq<char>, Seq<u8>)>) -> Seq<u8>
    decreases items.len(),
{
    if items.len() == 0 {
        Seq::empty()
    } else {
        string_frame(items[0].0) + bytes_frame(items[0].1) + items_body(items.drop_first())
    }
}

pub proof fn lemma_items_body_push(items: Seq<(Seq<char>, Seq<u8>)>, x: (Seq<char>, Seq<u8>))
    ensures
        items_body(items.push(x)) == items_body(items) + string_frame(x.0) + bytes_frame(x.1),
    decreases items.len(),
{
    if items.len() == 0 {
        assert(items.push(x).drop_first() =~= Seq::<(Seq<char>, Seq<u8>)>::empty());
        assert(items.push(x)[0] == x);
        assert(items_body(Seq::<(Seq<char>, Seq<u8>)>::empty()) == Seq::<u8>::empty());
        assert(items_body(items) == Seq::<u8>::empty());
        assert(items_body(items.push(x)) =~= items_body(items) + string_frame(x.0) + bytes_frame(
            x.1,
        ));
    } else {
        assert(items.push(x)[0] == items[0]);
        assert(items.push(x).drop_first() =~= items.drop_first().push(x));
        lemma_items_body_push(items.drop_first(), x);
        assert(items_body(items.push(x)) =~= items_body(items) + string_frame(x.0) + bytes_frame(
            x.1,
        ));
    }
}

/// A whole upload request: the opcode, the file count, then each item.
pub open spec fn upload_request(items: Seq<(Seq<char>, Seq<u8>)>) -> Seq<u8>
    recommends
        items.len() <= u32::MAX,
{
    seq![UPLOAD_OP] + u32_to_be(items.len() as u32) + items_body(items)
}

/// Whether every frame of the batch fits its `u32` length prefix.
pub open spec fn items_encodable(items: Seq<(Seq<char>, Seq<u8>)>) -> bool {
    items.len() <= u32::MAX && forall|i: int|
        0 <= i < items.len() ==> encode_utf8((#[trigger] items[i]).0).len() <= u32::MAX
            && items[i].1.len() <= u32::MAX
}

/// Append a whole upload request for the batch.
pub fn encode_upload_request(items: &Vec<FileItem>, out: &mut Vec<u8>)
    requires
        items_encodable(item_views(items@)),
    ensures
        final(out)@ == old(out)@ + upload_request(item_views(items@)),
{
    let ghost iv = item_views(items@);
    out.push(UPLOAD_OP);
    proof {
        assert(out@ =~= old(out)@ + seq![UPLOAD_OP]);
    }
    encode_u32(items.len() as u32, out);
    let ghost head = old(out)@ + seq![UPLOAD_OP] + u32_to_be(iv.len() as u32);
    proof {
        assert(out@ =~= head);
        assert(items_body(iv.take(0)) =~= Seq::<u8>::empty());
        assert(iv.take(0) =~= Seq::<(Seq<char>, Seq<u8>)>::empty());
        assert(out@ =~= head + items_body(iv.take(0)));
    }
    let mut i: usize = 0;
    while i < items.len()
        invariant
            i <= items@.len(),
            iv == item_views(items@),
            items_encodable(iv),
            out@ == head + items_body(iv.take(i as int)),
        decreases items@.len() - i,
    {
        proof {
            assert(iv[i as int] == items@[i as int]@);
        }
        encode_string(items[i].file_name.as_str(), out);
        encode_bytes(items[i].bytes.as_slice(), out);
        proof {
            assert(iv.take(i + 1) =~= iv.take(i as int).push(iv[i as int]));
            lemma_items_body_push(iv.take(i as int), iv[i as int]);
            assert(out@ =~= head + items_body(iv.take(i + 1)));
        }
        i = i + 1;
    }
    proof {
        assert(iv.take(i as int) =~= iv);
        assert(out@ =~= old(out)@ + upload_request(iv));
    }
}

/// Decoding `n` items at `pos`: names and contents with the position
/// after them, or the error of the first frame that fails.
pub open spec fn dec_items_at(buf: Seq<u8>, pos: int, n: nat) -> Result<
    (Seq<(Seq<char>, Seq<u8>)>, int),
    FumError,
>
    decreases n,
{
    if n == 0 {
        Ok((Seq::empty(), pos))
    } else {
        match dec_string_at(buf, pos) {
            Err(e) => Err(e),
            Ok((name, p1)) => match dec_bytes_at(buf, p1) {
                Option::None => Err(FumError::Connection),
                Option::Some((content, p2)) => match dec_items_at(buf, p2, (n - 1) as nat) {
                    Err(e) => Err(e),
                    Ok((rest, p3)) => Ok((seq![(name, content)] + rest, p3)),
                },
            },
        }
    }
}

/// Decoding a whole upload request body (after the opcode): the file
/// count, then that many items.
pub open spec fn dec_upload_at(buf: Seq<u8>, pos: int) -> Result<Seq<(Seq<char>, Seq<u8>)>, FumError> {
    match dec_u32_at(buf, pos) {
        Option::None => Err(FumError::Connection),
        Option::Some((n, p)) => match dec_items_at(buf, p, n as nat) {
            Err(e) => Err(e),
            Ok((items, _)) => Ok(items),
        },
    }
}

/// Decode an upload request body (after the opcode byte).
pub fn decode_upload_request(buf: &Vec<u8>, pos: usize) -> (r: Result<Vec<FileItem>, FumError>)
    ensures
        dec_upload_at(buf@, pos as int) matches Ok(v) ==> (r matches Ok(items) && item_views(
            items@,
        ) == v),
        dec_upload_at(buf@, pos as int) matches Err(e) ==> r == Err::<Vec<FileItem>, FumError>(e),
{
    let (n, start) = match decode_u32(buf, pos) {
        Ok(o) => o,
        Err(e) => {
            return Err(e);
        },
    };
    proof {
        assert(dec_u32_at(buf@, pos as int) == Some::<(u32, int)>((n, start as int)));
    }
    let mut items: Vec<FileItem> = Vec::new();
    let mut p: usize = start;
    let mut i: u32 = 0;
    proof {
        assert(item_views(items@) =~= Seq::<(Seq<char>, Seq<u8>)>::empty());
        assert(dec_items_at(buf@, start as int, n as nat) matches Ok(v) ==> item_views(items@)
            + v.0 =~= v.0);
    }
    while i < n
        invariant
            i <= n,
            items@.len() == i,
            dec_u32_at(buf@, pos as int) == Some::<(u32, int)>((n, start as int)),
            (match dec_items_at(buf@, p as int, (n - i) as nat) {
                Ok(v) => dec_items_at(buf@, start as int, n as nat) == Ok::<_, FumError>(
                    (item_views(items@) + v.0, v.1),
                ),
                Err(e) => dec_items_at(buf@, start as int, n as nat) == Err::<
                    (Seq<(Seq<char>, Seq<u8>)>, int),
                    _,
                >(e),
            }),
        decreases n - i,
    {
        let ghost pre_items = item_views(items@);
        let (name, p1) = match decode_string(buf, p) {
            Ok(o) => o,
            Err(e) => {
                proof {
                    assert(dec_string_at(buf@, p as int) == Err::<(Seq<char>, int), FumError>(e));
                    assert(dec_items_at(buf@, p as int, (n - i) as nat) == Err::<
                        (Seq<(Seq<char>, Seq<u8>)>, int),
                        FumError,
                    >(e));
                    assert(dec_items_at(buf@, start as int, n as nat) == Err::<
                        (Seq<(Seq<char>, Seq<u8>)>, int),
                        FumError,
                    >(e));
                    assert(dec_upload_at(buf@, pos as int) == Err::<
                        Seq<(Seq<char>, Seq<u8>)>,
                        FumError,
                    >(e));
                }
                return Err(e);
            },
        };
        proof {
            assert(dec_string_at(buf@, p as int) == Ok::<(Seq<char>, int), FumError>(
                (name@, p1 as int),
            ));
        }
        let (content, p2) = match decode_bytes(buf, p1) {
            Ok(o) => o,
            Err(e) => {
                proof {
                    assert(dec_bytes_at(buf@, p1 as int) is None);
                    assert(e == FumError::Connection);
                    assert(dec_items_at(buf@, p as int, (n - i) as nat) == Err::<
                        (Seq<(Seq<char>, Seq<u8>)>, int),
                        FumError,
                    >(e));
                }
                return Err(e);
            },
        };
        proof {
            let step = dec_items_at(buf@, p as int, (n - i) as nat);
            let rest = dec_items_at(buf@, p2 as int, (n - i - 1) as nat);
            assert(step matches Ok(v) ==> rest matches Ok(w) && v.0 == seq![
                (name@, content@),
            ] + w.0 && v.1 == w.1);
        }
        let ghost name_view = name@;
        let ghost content_view = content@;
        items.push(FileItem { file_name: name, bytes: content });
        proof {
            assert(item_views(items@) =~= pre_items.push((name_view, content_view)));
            assert(dec_items_at(buf@, p2 as int, (n - i - 1) as nat) matches Ok(w) ==> pre_items
                + (seq![(name_view, content_view)] + w.0) =~= item_views(items@) + w.0);
        }
        p = p2;
        i = i + 1;
    }
    proof {
        assert(dec_items_at(buf@, p as int, 0) == Ok::<_, FumError>((
            Seq::<(Seq<char>, Seq<u8>)>::empty(),
            p as int,
        )));
        assert(item_views(items@) + Seq::<(Seq<char>, Seq<u8>)>::empty() =~= item_views(items@));
    }
    Ok(items)
}

/// A whole download request: the opcode, the batch-id, the file name.
pub open spec fn download_request(batch: Seq<char>, name: Seq<char>) -> Seq<u8> {
    seq![DOWNLOAD_OP] + string_frame(batch) + string_frame(name)
}

/// Append a whole download request.
pub fn encode_download_request(batch: &str, name: &str, out: &mut Vec<u8>)
    requires
        encode_utf8(batch@).len() <= u32::MAX,
        encode_utf8(name@).len() <= u32::MAX,
    ensures
        final(out)@ == old(out)@ + download_request(batch@, name@),
{
    out.push(DOWNLOAD_OP);
    encode_string(batch, out);
    encode_string(name, out);
    proof {
        assert(out@ =~= old(out)@ + download_request(batch@, name@));
    }
}

/// A whole file-listing request: the opcode, then the batch-id.
pub open spec fn listfiles_request(batch: Seq<char>) -> Seq<u8> {
    seq![LISTFILES_OP] + string_frame(batch)
}

/// Append a whole file-listing request.
pub fn encode_listfiles_request(batch: &str, out: &mut Vec<u8>)
    requires
        encode_utf8(batch@).len() <= u32::MAX,
    ensures
        final(out)@ == old(out)@ + listfiles_request(batch@),
{
    out.push(LISTFILES_OP);
    encode_string(batch, out);
    proof {
        assert(out@ =~= old(out)@ + listfiles_request(batch@));
    }
}

/// Decoding a download request body (after the opcode): the batch-id and
/// the file name.
pub open spec fn dec_download_request_at(buf: Seq<u8>, pos: int) -> Result<
    (Seq<char>, Seq<char>, int),
    FumError,
> {
    match dec_string_at(buf, pos) {
        Err(e) => Err(e),
        Ok((batch, p1)) => match dec_string_at(buf, p1) {
            Err(e) => Err(e),
            Ok((name, p2)) => Ok((batch, name, p2)),
        },
    }
}

/// Decode a download request body (after the opcode byte).
pub fn decode_download_request(buf: &Vec<u8>, pos: usize) -> (r: Result<(String, String), FumError>)
    ensures
        dec_download_request_at(buf@, pos as int) matches Ok(v) ==> (r matches Ok(o) && o.0@ == v.0
            && o.1@ == v.1),
        dec_download_request_at(buf@, pos as int) matches Err(e) ==> r == Err::<
            (String, String),
            FumError,
        >(e),
{
    let (batch, p1) = match decode_string(buf, pos) {
        Ok(o) => o,
        Err(e) => {
            return Err(e);
        },
    };
    let (name, _p2) = match decode_string(buf, p1) {
        Ok(o) => o,
        Err(e) => {
            return Err(e);
        },
    };
    Ok((batch, name))
}

/// The characters each string of a sequence holds.
pub open spec fn string_views(names: Seq<String>) -> Seq<Seq<char>> {
    names.map_values(|s: String| s@)
}

/// The wire body of a name listing: one string frame per name.
pub open spec fn strings_body(names: Seq<Seq<char>>) -> Seq<u8>
    decreases names.len(),
{
    if names.len() == 0 {
        Seq::empty()
    } else {
        string_frame(names[0]) + strings_body(names.drop_first())
    }
}

pub proof fn lemma_strings_body_push(names: Seq<Seq<char>>, x: Seq<char>)
    ensures
        strings_body(names.push(x)) == strings_body(names) + string_frame(x),
    decreases names.len(),
{
    if names.len() == 0 {
        assert(names.push(x).drop_first() =~= Seq::<Seq<char>>::empty());
        assert(names.push(x)[0] == x);
        assert(strings_body(Seq::<Seq<char>>::empty()) == Seq::<u8>::empty());
        assert(strings_body(names) == Seq::<u8>::empty());
        assert(strings_body(names.push(x)) =~= strings_body(names) + string_frame(x));
    } else {
        assert(names.push(x)[0] == names[0]);
        assert(names.push(x).drop_first() =~= names.drop_first().push(x));
        lemma_strings_body_push(names.drop_first(), x);
        assert(strings_body(names.push(x)) =~= strings_body(names) + string_frame(x));
    }
}

/// A whole listing response: the count, then each name.
pub open spec fn list_response(names: Seq<Seq<char>>) -> Seq<u8>
    recommends
        names.len() <= u32::MAX,
{
    u32_to_be(names.len() as u32) + strings_body(names)
}

/// Whether every name fits its `u32` length prefix.
pub open spec fn strings_encodable(names: Seq<Seq<char>>) -> bool {
    names.len() <= u32::MAX && forall|i: int|
        0 <= i < names.len() ==> encode_utf8(#[trigger] names[i]).len() <= u32::MAX
}

/// Append a whole listing response.
pub fn encode_list_response(names: &Vec<String>, out: &mut Vec<u8>)
    requires
        strings_encodable(string_views(names@)),
    ensures
        final(out)@ == old(out)@ + list_response(string_views(names@)),
{
    let ghost nv = string_views(names@);
    encode_u32(names.len() as u32, out);
    let ghost head = old(out)@ + u32_to_be(nv.len() as u32);
    proof {
        assert(out@ =~= head);
        assert(nv.take(0) =~= Seq::<Seq<char>>::empty());
        assert(strings_body(nv.take(0)) == Seq::<u8>::empty());
        assert(out@ =~= head + strings_body(nv.take(0)));
    }
    let mut i: usize = 0;
    while i < names.len()
        invariant
            i <= names@.len(),
            nv == string_views(names@),
            strings_encodable(nv),
            out@ == head + strings_body(nv.take(i as int)),
        decreases names@.len() - i,
    {
        proof {
            assert(nv[i as int] == names@[i as int]@);
        }
        encode_string(names[i].as_str(), out);
        proof {
            assert(nv.take(i + 1) =~= nv.take(i as int).push(nv[i as int]));
            lemma_strings_body_push(nv.take(i as int), nv[i as int]);
            assert(out@ =~= head + strings_body(nv.take(i + 1)));
        }
        i = i + 1;
    }
    proof {
        assert(nv.take(i as int) =~= nv);
        assert(out@ =~= old(out)@ + list_response(nv));
    }
}

/// Decoding `n` string frames at `pos`.
pub open spec fn dec_strings_at(buf: Seq<u8>, pos: int, n: nat) -> Result<
    (Seq<Seq<char>>, int),
    FumError,
>
    decreases n,
{
    if n == 0 {
        Ok((Seq::empty(), pos))
    } else {
        match dec_string_at(buf, pos) {
            Err(e) => Err(e),
            Ok((name, p1)) => match dec_strings_at(buf, p1, (n - 1) as nat) {
                Err(e) => Err(e),
                Ok((rest, p2)) => Ok((seq![name] + rest, p2)),
            },
        }
    }
}

/// Decoding a whole listing response: the count, then that many names.
pub open spec fn dec_list_at(buf: Seq<u8>, pos: int) -> Result<Seq<Seq<char>>, FumError> {
    match dec_u32_at(buf, pos) {
        Option::None => Err(FumError::Connection),
        Option::Some((n, p)) => match dec_strings_at(buf, p, n as nat) {
            Err(e) => Err(e),
            Ok((names, _)) => Ok(names),
        },
    }
}

/// Decode a whole listing response.
pub fn decode_list_response(buf: &Vec<u8>, pos: usize) -> (r: Result<Vec<String>, FumError>)
    ensures
        dec_list_at(buf@, pos as int) matches Ok(v) ==> (r matches Ok(names) && string_views(
            names@,
        ) == v),
        dec_list_at(buf@, pos as int) matches Err(e) ==> r == Err::<Vec<String>, FumError>(e),
{
    let (n, start) = match decode_u32(buf, pos) {
        Ok(o) => o,
        Err(e) => {
            return Err(e);
        },
    };
    let mut names: Vec<String> = Vec::new();
    let mut p: usize = start;
    let mut i: u32 = 0;
    proof {
        assert(string_views(names@) =~= Seq::<Seq<char>>::empty());
        assert(dec_strings_at(buf@, start as int, n as nat) matches Ok(v) ==> string_views(names@)
            + v.0 =~= v.0);
    }
    while i < n
        invariant
            i <= n,
            names@.len() == i,
            dec_u32_at(buf@, pos as int) == Some::<(u32, int)>((n, start as int)),
            (match dec_strings_at(buf@, p as int, (n - i) as nat) {
                Ok(v) => dec_strings_at(buf@, start as int, n as nat) == Ok::<_, FumError>(
                    (string_views(names@) + v.0, v.1),
                ),
                Err(e) => dec_strings_at(buf@, start as int, n as nat) == Err::<
                    (Seq<Seq<char>>, int),
                    _,
                >(e),
            }),
        decreases n - i,
    {
        let ghost pre_names = string_views(names@);
        let (name, p1) = match decode_string(buf, p) {
            Ok(o) => o,
            Err(e) => {
                proof {
                    assert(dec_string_at(buf@, p as int) == Err::<(Seq<char>, int), FumError>(e));
                    assert(dec_strings_at(buf@, p as int, (n - i) as nat) == Err::<
                        (Seq<Seq<char>>, int),
                        FumError,
                    >(e));
                }
                return Err(e);
            },
        };
        proof {
            assert(dec_string_at(buf@, p as int) == Ok::<(Seq<char>, int), FumError>(
                (name@, p1 as int),
            ));
            let step = dec_strings_at(buf@, p as int, (n - i) as nat);
            let rest = dec_strings_at(buf@, p1 as int, (n - i - 1) as nat);
            assert(step matches Ok(v) ==> rest matches Ok(w) && v.0 == seq![name@] + w.0 && v.1
                == w.1);
        }
        let ghost name_view = name@;
        names.push(name);
        proof {
            assert(string_views(names@) =~= pre_names.push(name_view));
            assert(dec_strings_at(buf@, p1 as int, (n - i - 1) as nat) matches Ok(w) ==> pre_names
                + (seq![name_view] + w.0) =~= string_views(names@) + w.0);
        }
        p = p1;
        i = i + 1;
    }
    proof {
        assert(dec_strings_at(buf@, p as int, 0) == Ok::<_, FumError>((
            Seq::<Seq<char>>::empty(),
            p as int,
        )));
        assert(string_views(names@) + Seq::<Seq<char>>::empty() =~= string_views(names@));
    }
    Ok(names)
}

/// The reply to a file-listing request, given the looked-up batch.
///
/// An unknown batch-id is a [`FumError::NotFound`], never an
/// empty-but-successful list; a known batch's names are framed as a
/// listing response.
pub fn list_files_response(batch: Option<&Vec<String>>) -> (r: Result<Vec<u8>, FumError>)
    requires
        batch matches Some(names) ==> strings_encodable(string_views(names@)),
    ensures
        batch is None ==> r == Err::<Vec<u8>, FumError>(FumError::NotFound),
        batch matches Some(names) ==> (r matches Ok(b) && b@ == list_response(
            string_views(names@),
        )),
{
    match batch {
        None => Err(FumError::NotFound),
        Some(names) => {
            let mut out: Vec<u8> = Vec::new();
            encode_list_response(names, &mut out);
            proof {
                assert(out@ =~= list_response(string_views(names@)));
            }
            Ok(out)
        },
    }
}

/// The wire body of a proof: one byte blob per sibling digest.
pub open spec fn digests_body(entries: Seq<Seq<u8>>) -> Seq<u8>
    decreases entries.len(),
{
    if entries.len() == 0 {
        Seq::empty()
    } else {
        bytes_frame(entries[0]) + digests_body(entries.drop_first())
    }
}

pub proof fn lemma_digests_body_push(entries: Seq<Seq<u8>>, x: Seq<u8>)
    ensures
        digests_body(entries.push(x)) == digests_body(entries) + bytes_frame(x),
    decreases entries.len(),
{
    if entries.len() == 0 {
        assert(entries.push(x).drop_first() =~= Seq::<Seq<u8>>::empty());
        assert(entries.push(x)[0] == x);
        assert(digests_body(Seq::<Seq<u8>>::empty()) == Seq::<u8>::empty());
        assert(digests_body(entries) == Seq::<u8>::empty());
        assert(digests_body(entries.push(x)) =~= digests_body(entries) + bytes_frame(x));
    } else {
        assert(entries.push(x)[0] == entries[0]);
        assert(entries.push(x).drop_first() =~= entries.drop_first().push(x));
        lemma_digests_body_push(entries.drop_first(), x);
        assert(digests_body(entries.push(x)) =~= digests_body(entries) + bytes_frame(x));
    }
}

/// A whole download response: the file name, the file content, the proof
/// length, then each sibling digest as a byte blob.
pub open spec fn download_response(name: Seq<char>, content: Seq<u8>, entries: Seq<Seq<u8>>) -> Seq<
    u8,
>
    recommends
        entries.len() <= u32::MAX,
{
    string_frame(name) + bytes_frame(content) + u32_to_be(entries.len() as u32) + digests_body(
        entries,
    )
}

/// Append a whole download response.
pub fn encode_download_response(
    file_name: &str,
    content: &Vec<u8>,
    proof_vec: &Vec<Digest>,
    out: &mut Vec<u8>,
)
    requires
        encode_utf8(file_name@).len() <= u32::MAX,
        content@.len() <= u32::MAX,
        proof_vec@.len() <= u32::MAX,
    ensures
        final(out)@ == old(out)@ + download_response(file_name@, content@, views(proof_vec@)),
{
    let ghost pv = views(proof_vec@);
    encode_string(file_name, out);
    encode_bytes(content.as_slice(), out);
    encode_u32(proof_vec.len() as u32, out);
    let ghost head = old(out)@ + string_frame(file_name@) + bytes_frame(content@) + u32_to_be(
        pv.len() as u32,
    );
    proof {
        assert(out@ =~= head);
        assert(pv.take(0) =~= Seq::<Seq<u8>>::empty());
        assert(digests_body(pv.take(0)) == Seq::<u8>::empty());
        assert(out@ =~= head + digests_body(pv.take(0)));
    }
    let mut i: usize = 0;
    while i < proof_vec.len()
        invariant
            i <= proof_vec@.len(),
            pv == views(proof_vec@),
            out@ == head + digests_body(pv.take(i as int)),
        decreases proof_vec@.len() - i,
    {
        let _entry_len = proof_vec[i].len();
        proof {
            assert(pv[i as int] == proof_vec@[i as int]@);
            assert(pv[i as int].len() <= u32::MAX);
        }
        encode_bytes(proof_vec[i].as_bytes().as_slice(), out);
        proof {
            assert(pv.take(i + 1) =~= pv.take(i as int).push(pv[i as int]));
            lemma_digests_body_push(pv.take(i as int), pv[i as int]);
            assert(out@ =~= head + digests_body(pv.take(i + 1)));
        }
        i = i + 1;
    }
    proof {
        assert(pv.take(i as int) =~= pv);
        assert(out@ =~= old(out)@ + download_response(file_name@, content@, pv));
    }
}

/// Decoding `n` sibling digests at `pos`: a short buffer is a
/// [`FumError::Connection`], a blob that is not exactly a digest long a
/// [`FumError::SizeMismatch`].
pub open spec fn dec_digests_at(buf: Seq<u8>, pos: int, n: nat) -> Result<
    (Seq<Seq<u8>>, int),
    FumError,
>
    decreases n,
{
    if n == 0 {
        Ok((Seq::empty(), pos))
    } else {
        match dec_bytes_at(buf, pos) {
            Option::None => Err(FumError::Connection),
            Option::Some((content, p1)) => if content.len() != DIGEST_LEN {
                Err(FumError::SizeMismatch)
            } else {
                match dec_digests_at(buf, p1, (n - 1) as nat) {
                    Err(e) => Err(e),
                    Ok((rest, p2)) => Ok((seq![content] + rest, p2)),
                }
            },
        }
    }
}

/// Decoding a whole download response.
pub open spec fn dec_download_response_at(buf: Seq<u8>, pos: int) -> Result<
    (Seq<char>, Seq<u8>, Seq<Seq<u8>>),
    FumError,
> {
    match dec_string_at(buf, pos) {
        Err(e) => Err(e),
        Ok((name, p1)) => match dec_bytes_at(buf, p1) {
            Option::None => Err(FumError::Connection),
            Option::Some((content, p2)) => match dec_u32_at(buf, p2) {
                Option::None => Err(FumError::Connection),
                Option::Some((n, p3)) => match dec_digests_at(buf, p3, n as nat) {
                    Err(e) => Err(e),
                    Ok((entries, _)) => Ok((name, content, entries)),
                },
            },
        },
    }
}

/// Decode a whole download response: the file name, the content, and the
/// proof's sibling digests.
pub fn decode_download_response(buf: &Vec<u8>, pos: usize) -> (r: Result<
    (String, Vec<u8>, Vec<Digest>),
    FumError,
>)
    ensures
        dec_download_response_at(buf@, pos as int) matches Ok(v) ==> (r matches Ok(o) && o.0@
            == v.0 && o.1@ == v.1 && views(o.2@) == v.2),
        dec_download_response_at(buf@, pos as int) matches Err(e) ==> r == Err::<
            (String, Vec<u8>, Vec<Digest>),
            FumError,
        >(e),
{
    let (name, p1) = match decode_string(buf, pos) {
        Ok(o) => o,
        Err(e) => {
            return Err(e);
        },
    };
    proof {
        assert(dec_string_at(buf@, pos as int) == Ok::<(Seq<char>, int), FumError>(
            (name@, p1 as int),
        ));
    }
    let (content, p2) = match decode_bytes(buf, p1) {
        Ok(o) => o,
        Err(e) => {
            return Err(e);
        },
    };
    let (n, start) = match decode_u32(buf, p2) {
        Ok(o) => o,
        Err(e) => {
            return Err(e);
        },
    };
    let mut entries: Vec<Digest> = Vec::new();
    let mut p: usize = start;
    let mut i: u32 = 0;
    proof {
        assert(views(entries@) =~= Seq::<Seq<u8>>::empty());
        assert(dec_digests_at(buf@, start as int, n as nat) matches Ok(v) ==> views(entries@) + v.0
            =~= v.0);
    }
    while i < n
        invariant
            i <= n,
            entries@.len() == i,
            dec_string_at(buf@, pos as int) == Ok::<(Seq<char>, int), FumError>(
                (name@, p1 as int),
            ),
            dec_bytes_at(buf@, p1 as int) == Some::<(Seq<u8>, int)>((content@, p2 as int)),
            dec_u32_at(buf@, p2 as int) == Some::<(u32, int)>((n, start as int)),
            (match dec_digests_at(buf@, p as int, (n - i) as nat) {
                Ok(v) => dec_digests_at(buf@, start as int, n as nat) == Ok::<_, FumError>(
                    (views(entries@) + v.0, v.1),
                ),
                Err(e) => dec_digests_at(buf@, start as int, n as nat) == Err::<
                    (Seq<Seq<u8>>, int),
                    _,
                >(e),
            }),
        decreases n - i,
    {
        let ghost pre_entries = views(entries@);
        let (blob, pnext) = match decode_bytes(buf, p) {
            Ok(o) => o,
            Err(e) => {
                proof {
                    assert(dec_bytes_at(buf@, p as int) is None);
                    assert(dec_digests_at(buf@, p as int, (n - i) as nat) == Err::<
                        (Seq<Seq<u8>>, int),
                        FumError,
                    >(e));
                }
                return Err(e);
            },
        };
        let ghost blob_view = blob@;
        let d = match Digest::from_vec(blob) {
            Ok(d) => d,
            Err(e) => {
                proof {
                    assert(blob_view.len() != DIGEST_LEN);
                    assert(dec_digests_at(buf@, p as int, (n - i) as nat) == Err::<
                        (Seq<Seq<u8>>, int),
                        FumError,
                    >(e));
                }
                return Err(e);
            },
        };
        proof {
            let step = dec_digests_at(buf@, p as int, (n - i) as nat);
            let rest = dec_digests_at(buf@, pnext as int, (n - i - 1) as nat);
            assert(step matches Ok(v) ==> rest matches Ok(w) && v.0 == seq![blob_view] + w.0 && v.1
                == w.1);
            lemma_views_push(entries@, d);
        }
        entries.push(d);
        proof {
            assert(views(entries@) =~= pre_entries.push(blob_view));
            assert(dec_digests_at(buf@, pnext as int, (n - i - 1) as nat) matches Ok(w)
                ==> pre_entries + (seq![blob_view] + w.0) =~= views(entries@) + w.0);
        }
        p = pnext;
        i = i + 1;
    }
    proof {
        assert(dec_digests_at(buf@, p as int, 0) == Ok::<_, FumError>((
            Seq::<Seq<u8>>::empty(),
            p as int,
        )));
        assert(views(entries@) + Seq::<Seq<u8>>::empty() =~= views(entries@));
    }
    Ok((name, content, entries))
}

/// The digest of each item's content: the leaf set of a batch.
pub open spec fn leaves_of(items: Seq<(Seq<char>, Seq<u8>)>) -> Seq<Seq<u8>> {
    items.map_values(|p: (Seq<char>, Seq<u8>)| sha256_of(p.1))
}

/// The leaf digest of each file of a batch, in presentation order.
pub fn leaf_hashes(items: &Vec<FileItem>) -> (r: Vec<Digest>)
    ensures
        views(r@) == leaves_of(item_views(items@)),
        r@.len() == items@.len(),
{
    let ghost target = leaves_of(item_views(items@));
    let mut out: Vec<Digest> = Vec::new();
    let mut i: usize = 0;
    proof {
        assert(views(out@) =~= target.take(0));
    }
    while i < items.len()
        invariant
            i <= items@.len(),
            target == leaves_of(item_views(items@)),
            target.len() == items@.len(),
            views(out@) == target.take(i as int),
        decreases items@.len() - i,
    {
        let d = compute_sha256(items[i].bytes.as_slice());
        proof {
            lemma_views_push(out@, d);
            assert(target[i as int] == sha256_of(items@[i as int]@.1));
            assert(views(out@.push(d)) =~= target.take(i + 1));
        }
        out.push(d);
        i = i + 1;
    }
    proof {
        assert(target.take(i as int) =~= target);
    }
    out
}

/// The root digest committing to a batch of files: the root of the
/// contents' leaf digests. An empty batch is a [`FumError::EmptyInput`].
pub fn batch_root(items: &Vec<FileItem>) -> (r: Result<Digest, FumError>)
    ensures
        items@.len() == 0 ==> r == Err::<Digest, FumError>(FumError::EmptyInput),
        items@.len() > 0 ==> (r matches Ok(d) && d@ == root_of(leaves_of(item_views(items@)))),
{
    let hashes = leaf_hashes(items);
    root_hash(&hashes)
}

/// The storage directory name of a batch: the lowercase hex display of
/// its root digest. An empty batch is a [`FumError::EmptyInput`].
pub fn batch_dir_name(items: &Vec<FileItem>) -> (r: Result<String, FumError>)
    ensures
        items@.len() == 0 ==> r == Err::<String, FumError>(FumError::EmptyInput),
        items@.len() > 0 ==> (r matches Ok(s) && s@ == hex_of(
            root_of(leaves_of(item_views(items@))),
        )),
{
    match batch_root(items) {
        Err(e) => Err(e),
        Ok(d) => {
            let _root_len = d.len();
            Ok(digest(d.as_bytes().as_slice()))
        },
    }
}

/// The membership proof for a file's content within a batch, recomputed
/// from the batch's current items. Content whose digest is not a leaf of
/// the batch is a [`FumError::NotFound`].
pub fn batch_proof(items: &Vec<FileItem>, content: &Vec<u8>) -> (r: Result<Vec<Digest>, FumError>)
    ensures
        leaves_of(item_views(items@)).contains(sha256_of(content@)) ==> (r matches Ok(p)
            && views(p@) == proof_entries(
            sorted_leaves(leaves_of(item_views(items@))),
            sha256_of(content@),
        ) && fold_proof(views(p@), sha256_of(content@)) == root_of(
            leaves_of(item_views(items@)),
        )),
        !leaves_of(item_views(items@)).contains(sha256_of(content@)) ==> r == Err::<
            Vec<Digest>,
            FumError,
        >(FumError::NotFound),
{
    let hashes = leaf_hashes(items);
    let target = compute_sha256(content.as_slice());
    get_proof(&hashes, &target)
}

/// Whether downloaded content is intact: its digest, folded through the
/// received proof, must reach the anchored root. `false` is the
/// integrity-failure outcome, reported and never raised.
pub fn check_download(content: &Vec<u8>, proof_vec: &Vec<Digest>, anchor: &Digest) -> (r: bool)
    ensures
        r == (fold_proof(views(proof_vec@), sha256_of(content@)) == anchor@),
{
    let leaf = compute_sha256(content.as_slice());
    verify_proof(proof_vec, anchor, &leaf)
}

} // verus!
