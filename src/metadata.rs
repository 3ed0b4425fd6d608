use crate::chunker::{
    byte_views, merkle_root_of, seals_all, sha256_of, split_spec, Chunker, EncryptedChunk, TAG_LEN,
};
use vstd::prelude::*;

verus! {

/// One chunk as the manifest lists it.
#[derive(Debug, Clone, Copy)]
pub struct ChunkMetadata {
    pub index: u64,
    pub hash: [u8; 32],
    pub size: usize,
    pub nonce: Option<[u8; 12]>,
}

/// A file's identity, layout and per-chunk metadata.
#[derive(Debug, Clone)]
pub struct FileManifest {
    pub file_id: String,
    pub file_name: String,
    pub file_size: u64,
    pub chunk_size: usize,
    pub merkle_root: [u8; 32],
    pub chunks: Vec<ChunkMetadata>,
}

/// The lower-case hexadecimal digit for a value below sixteen.
pub open spec fn hex_digit(d: u8) -> char {
    if d < 10 {
        (d + 48) as u8 as char
    } else {
        (d + 87) as u8 as char
    }
}

/// `bytes` in lower-case hexadecimal: two digits per byte, high half first.
pub open spec fn hex_lower(bytes: Seq<u8>) -> Seq<char> {
    Seq::new(
        2 * bytes.len(),
        |i: int|
            if i % 2 == 0 {
                hex_digit(bytes[i / 2] / 16)
            } else {
                hex_digit(bytes[i / 2] % 16)
            },
    )
}

/// Relies on hex::encode: each byte becomes two lower-case hexadecimal digits,
/// the high half first.
#[verifier::external_body]
fn hex_encode(bytes: &[u8; 32]) -> (r: String)
    ensures
        r@ == hex_lower(bytes@),
{
    hex::encode(bytes)
}

/// The ciphertexts that a list of sealed chunks carries, in order.
pub open spec fn ciphertexts(encs: Seq<EncryptedChunk>) -> Seq<Seq<u8>> {
    encs.map_values(|e: EncryptedChunk| e.ciphertext@)
}

/// The fields that every manifest derives from its arguments alike.
pub open spec fn manifest_header(
    m: FileManifest,
    file_name: Seq<char>,
    file_size: u64,
    chunk_size: usize,
) -> bool {
    &&& m.file_name@ == file_name
    &&& m.file_size == file_size
    &&& m.chunk_size == chunk_size
    &&& m.file_id@ == hex_lower(m.merkle_root@)
}

/// `m` is the manifest of `contents` cut into chunks of `chunk_size` bytes,
/// without sealing.
pub open spec fn describes_plain(
    m: FileManifest,
    file_name: Seq<char>,
    file_size: u64,
    chunk_size: usize,
    contents: Seq<u8>,
) -> bool {
    let pieces = split_spec(contents, chunk_size as nat);
    &&& manifest_header(m, file_name, file_size, chunk_size)
    &&& m.merkle_root@ == merkle_root_of(pieces)
    &&& m.chunks@.len() == pieces.len()
    &&& forall|i: int|
        0 <= i < pieces.len() ==> {
            let c = #[trigger] m.chunks@[i];
            &&& c.index == i as u64
            &&& c.hash@ == sha256_of(pieces[i])
            &&& c.size == pieces[i].len()
            &&& c.nonce is None
        }
}

/// `m` is the manifest of the sealed chunks `encs`, taken in the order given.
pub open spec fn describes_encrypted(
    m: FileManifest,
    file_name: Seq<char>,
    file_size: u64,
    chunk_size: usize,
    encs: Seq<EncryptedChunk>,
) -> bool {
    &&& manifest_header(m, file_name, file_size, chunk_size)
    &&& m.merkle_root@ == merkle_root_of(ciphertexts(encs))
    &&& m.chunks@.len() == encs.len()
    &&& forall|i: int|
        0 <= i < encs.len() ==> {
            let c = #[trigger] m.chunks@[i];
            &&& c.index == encs[i].index
            &&& c.hash@ == sha256_of(encs[i].ciphertext@)
            &&& c.size == encs[i].ciphertext@.len()
            &&& c.nonce == Some(encs[i].nonce)
        }
}

/// The plain manifest of a file and the manifest of that file's chunks sealed
/// in order report the same size, chunk length and chunk count, and list the
/// same positions; each sealed chunk is its plain chunk plus the tag.
pub proof fn lemma_manifests_share_layout(
    plain: FileManifest,
    sealed: FileManifest,
    file_name: Seq<char>,
    file_size: u64,
    chunk_size: usize,
    contents: Seq<u8>,
    key: Seq<u8>,
    encs: Seq<EncryptedChunk>,
)
    requires
        describes_plain(plain, file_name, file_size, chunk_size, contents),
        seals_all(key, split_spec(contents, chunk_size as nat), encs),
        describes_encrypted(sealed, file_name, file_size, chunk_size, encs),
    ensures
        plain.file_size == sealed.file_size,
        plain.chunk_size == sealed.chunk_size,
        plain.chunks@.len() == sealed.chunks@.len(),
        forall|i: int|
            0 <= i < plain.chunks@.len() ==> {
                &&& (#[trigger] plain.chunks@[i]).index == sealed.chunks@[i].index
                &&& plain.chunks@[i].size + TAG_LEN == sealed.chunks@[i].size
            },
{
    assert forall|i: int| 0 <= i < plain.chunks@.len() implies {
        &&& (#[trigger] plain.chunks@[i]).index == sealed.chunks@[i].index
        &&& plain.chunks@[i].size + TAG_LEN == sealed.chunks@[i].size
    } by {
        assert(sealed.chunks@[i].index == encs[i].index);
    }
}

impl FileManifest {
    /// A manifest whose identifier is the hexadecimal form of `merkle_root`.
    pub fn new(
        file_name: String,
        file_size: u64,
        chunk_size: usize,
        merkle_root: [u8; 32],
        chunks: Vec<ChunkMetadata>,
    ) -> (r: Self)
        ensures
            manifest_header(r, file_name@, file_size, chunk_size),
            r.merkle_root == merkle_root,
            r.chunks == chunks,
    {
        let file_id = hex_encode(&merkle_root);
        FileManifest { file_id, file_name, file_size, chunk_size, merkle_root, chunks }
    }

    /// The manifest of a file's `contents` cut into chunks of `chunk_size`
    /// bytes: the root and the chunk digests are taken over the plain chunks.
    /// A chunk size of zero lists no chunks.
    pub fn from_contents(file_name: String, file_size: u64, contents: &[u8], chunk_size: usize) -> (r:
        Self)
        ensures
            describes_plain(r, file_name@, file_size, chunk_size, contents@),
    {
        let chunker = Chunker::new(chunk_size);
        let raw = chunker.split_bytes(contents);
        let ghost pieces = split_spec(contents@, chunk_size as nat);
        let merkle_root = chunker.merkle_root(raw.as_slice());
        let mut chunks: Vec<ChunkMetadata> = Vec::new();
        let mut i: usize = 0;
        while i < raw.len()
            invariant
                byte_views(raw@) == pieces,
                i <= raw@.len(),
                chunks@.len() == i,
                forall|j: int|
                    0 <= j < i ==> {
                        let c = #[trigger] chunks@[j];
                        &&& c.index == j as u64
                        &&& c.hash@ == sha256_of(pieces[j])
                        &&& c.size == pieces[j].len()
                        &&& c.nonce is None
                    },
            decreases raw@.len() - i,
        {
            assert(raw@[i as int]@ == pieces[i as int]);
            let hash = Chunker::hash(raw[i].as_slice());
            chunks.push(ChunkMetadata { index: i as u64, hash, size: raw[i].len(), nonce: None });
            i = i + 1;
        }
        FileManifest::new(file_name, file_size, chunk_size, merkle_root, chunks)
    }

    /// The manifest of sealed chunks, taken in the order given: the root and
    /// the chunk digests are taken over the ciphertexts.
    pub fn from_encrypted_chunks(
        file_name: String,
        file_size: u64,
        chunk_size: usize,
        encrypted_chunks: Vec<EncryptedChunk>,
    ) -> (r: Self)
        ensures
            describes_encrypted(r, file_name@, file_size, chunk_size, encrypted_chunks@),
    {
        let chunker = Chunker::new(chunk_size);
        let mut sealed: Vec<Vec<u8>> = Vec::new();
        let mut chunks: Vec<ChunkMetadata> = Vec::new();
        let mut i: usize = 0;
        while i < encrypted_chunks.len()
            invariant
                i <= encrypted_chunks@.len(),
                sealed@.len() == i,
                chunks@.len() == i,
                forall|j: int| 0 <= j < i ==> #[trigger] sealed@[j]@ == encrypted_chunks@[j].ciphertext@,
                forall|j: int|
                    0 <= j < i ==> {
                        let c = #[trigger] chunks@[j];
                        let e = encrypted_chunks@[j];
                        &&& c.index == e.index
                        &&& c.hash@ == sha256_of(e.ciphertext@)
                        &&& c.size == e.ciphertext@.len()
                        &&& c.nonce == Some(e.nonce)
                    },
            decreases encrypted_chunks@.len() - i,
        {
            let e = &encrypted_chunks[i];
            let hash = Chunker::hash(e.ciphertext.as_slice());
            chunks.push(
                ChunkMetadata {
                    index: e.index,
                    hash,
                    size: e.ciphertext.len(),
                    nonce: Some(e.nonce),
                },
            );
            sealed.push(vstd::slice::slice_to_vec(e.ciphertext.as_slice()));
            i = i + 1;
        }
        assert(byte_views(sealed@) =~= ciphertexts(encrypted_chunks@));
        let merkle_root = chunker.merkle_root(sealed.as_slice());
        FileManifest::new(file_name, file_size, chunk_size, merkle_root, chunks)
    }
}

} // verus!
