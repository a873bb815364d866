use fum::{
    batch_proof, batch_root, decode_download_request, decode_download_response,
    decode_list_response, decode_upload_request, encode_download_request,
    encode_download_response, encode_list_response, encode_listfiles_request,
    encode_upload_request, list_files_response, parse_opcode, FileItem, FumError, Opcode,
    UploadOp, DOWNLOAD_OP, LISTDIRS_OP, LISTFILES_OP, UPLOAD_OP,
};

#[test]
fn opcodes_parse_exactly() {
    assert_eq!(parse_opcode(UPLOAD_OP), Some(Opcode::Upload));
    assert_eq!(parse_opcode(LISTDIRS_OP), Some(Opcode::ListDirs));
    assert_eq!(parse_opcode(LISTFILES_OP), Some(Opcode::ListFiles));
    assert_eq!(parse_opcode(DOWNLOAD_OP), Some(Opcode::Download));
    assert_eq!(parse_opcode(0x00), None);
    assert_eq!(parse_opcode(0x05), None);
    assert_eq!(parse_opcode(0xff), None);
}

fn batch() -> Vec<FileItem> {
    vec![
        FileItem { file_name: "one.bin".to_string(), bytes: vec![1, 2, 3] },
        FileItem { file_name: "two.bin".to_string(), bytes: vec![] },
        FileItem { file_name: "три.bin".to_string(), bytes: vec![0xff; 40] },
    ]
}

#[test]
fn upload_request_round_trip() {
    let items = batch();
    let mut buf: Vec<u8> = Vec::new();
    encode_upload_request(&items, &mut buf);
    assert_eq!(buf[0], UPLOAD_OP);
    let decoded = decode_upload_request(&buf, 1).unwrap();
    assert_eq!(decoded.len(), items.len());
    for (a, b) in decoded.iter().zip(items.iter()) {
        assert_eq!(a.file_name, b.file_name);
        assert_eq!(a.bytes, b.bytes);
    }
}

#[test]
fn truncated_upload_request_is_connection_error() {
    let items = batch();
    let mut buf: Vec<u8> = Vec::new();
    encode_upload_request(&items, &mut buf);
    let truncated = buf[..buf.len() - 3].to_vec();
    assert!(matches!(decode_upload_request(&truncated, 1), Err(FumError::Connection)));
}

#[test]
fn download_request_round_trip() {
    let mut buf: Vec<u8> = Vec::new();
    encode_download_request("batchdir", "file.txt", &mut buf);
    assert_eq!(buf[0], DOWNLOAD_OP);
    let (batch_id, name) = decode_download_request(&buf, 1).unwrap();
    assert_eq!(batch_id, "batchdir");
    assert_eq!(name, "file.txt");
}

#[test]
fn listfiles_request_shape() {
    let mut buf: Vec<u8> = Vec::new();
    encode_listfiles_request("somebatch", &mut buf);
    assert_eq!(buf[0], LISTFILES_OP);
    assert_eq!(&buf[1..5], &[0, 0, 0, 9]);
    assert_eq!(&buf[5..], b"somebatch");
}

#[test]
fn list_response_round_trip() {
    let names = vec!["a.txt".to_string(), "b.txt".to_string(), "c.txt".to_string()];
    let mut buf: Vec<u8> = Vec::new();
    encode_list_response(&names, &mut buf);
    let decoded = decode_list_response(&buf, 0).unwrap();
    assert_eq!(decoded, names);

    let empty: Vec<String> = Vec::new();
    let mut buf2: Vec<u8> = Vec::new();
    encode_list_response(&empty, &mut buf2);
    assert_eq!(decode_list_response(&buf2, 0).unwrap(), empty);
}

#[test]
fn unknown_batch_listing_is_not_found() {
    assert!(matches!(list_files_response(None), Err(FumError::NotFound)));
    let names = vec!["kept.txt".to_string()];
    let encoded = list_files_response(Some(&names)).unwrap();
    assert_eq!(decode_list_response(&encoded, 0).unwrap(), names);
}

#[test]
fn download_response_round_trip() {
    let items = batch();
    let content = items[0].bytes.clone();
    let proof = batch_proof(&items, &content).unwrap();
    let mut buf: Vec<u8> = Vec::new();
    encode_download_response("one.bin", &content, &proof, &mut buf);
    let (name, got_content, got_proof) = decode_download_response(&buf, 0).unwrap();
    assert_eq!(name, "one.bin");
    assert_eq!(got_content, content);
    assert_eq!(got_proof.len(), proof.len());
    for (a, b) in got_proof.iter().zip(proof.iter()) {
        assert!(a.eq_digest(b));
    }
}

#[test]
fn download_response_with_short_digest_is_size_mismatch() {
    // A proof entry framed with only 31 bytes.
    let mut buf: Vec<u8> = Vec::new();
    fum::encode_string("f.txt", &mut buf);
    fum::encode_bytes(&vec![9u8, 9, 9], &mut buf);
    fum::encode_u32(1, &mut buf);
    fum::encode_bytes(&vec![0u8; 31], &mut buf);
    assert!(matches!(decode_download_response(&buf, 0), Err(FumError::SizeMismatch)));
}

#[test]
fn upload_op_iterates_the_counted_items() {
    let items = batch();
    let count = items.len() as u32;
    let mut op = UploadOp::new(count, "staging".to_string(), items);
    assert_eq!(op.files_count, 3);
    assert_eq!(op.dir_path, "staging");
    let mut seen: u32 = 0;
    while let Some(item) = op.next() {
        match seen {
            0 => assert_eq!(item.file_name, "one.bin"),
            1 => assert_eq!(item.file_name, "two.bin"),
            _ => assert_eq!(item.file_name, "три.bin"),
        }
        seen += 1;
    }
    assert_eq!(seen, count);
    assert!(op.next().is_none());
}

#[test]
fn client_and_server_agree_on_batch_root() {
    let items = batch();
    // The server decodes the request the client encoded, and both sides
    // compute the same root over the same contents.
    let mut wire: Vec<u8> = Vec::new();
    encode_upload_request(&items, &mut wire);
    let server_items = decode_upload_request(&wire, 1).unwrap();
    let client_root = batch_root(&items).unwrap();
    let server_root = batch_root(&server_items).unwrap();
    assert!(client_root.eq_digest(&server_root));
}
