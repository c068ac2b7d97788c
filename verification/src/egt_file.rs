//! A file of endgame tables: the tables of one endgame, their outcomes laid
//! out one after the other and stored in frames of a fixed number of
//! outcomes, each frame empty, on disk, compressed in memory or uncompressed.

use vstd::prelude::*;
use crate::error::EgtError;
use crate::frame::{transpose_frame, detranspose_frame, is_transposed, is_detransposed, lemma_frame_round_trip};
use crate::stored::{MaybeDtcOutcome, status, payload};
use crate::egt::Egt;
use crate::tables::{PawnKey, key_lt, key_eq};
use crate::names::{lex_lt, all_ascii, ascii_chars, string_from_ascii};
use crate::board::{BoardPosition, Color, Piece, Role, mirror_horizontally};
use crate::piece_set::{File, file_index};
use crate::tables::{parse_endgame_name, get_file_combinations, is_canonical, build_pieces, reflect_files, underscore_pos, valid_side, is_piece_letter};
use crate::words::words;
use crate::egt::entries_sorted;
use crate::indexer::{listing_ok, files_fit, ep_fit, listed_elements};
use crate::tables::{count_byte, file_indexes};
use crate::egt::{PieceEntry, file_of};
use crate::board::{opposite, mirrored, mirror_square};
use crate::piece_set::{EgtRole, EgtSide};
use crate::tables::{key_of, canonical, count_file, pawn_entries, side_entries, reflected};
use crate::pawn_files::{files_nondecreasing, lemma_pawn_files_sorted, lemma_sorted_files};
use vstd::string::StringSliceAdditionalSpecFns;

verus! {

/// Outcomes per frame (32 KiB of stored values).
pub const DEFAULT_FRAME_SIZE: usize = 16384;

/// The state of one frame of a file.
#[derive(Debug, Clone)]
pub enum FrameState {
    /// The frame has never been written: all its outcomes are invalid.
    Empty,
    /// The frame is compressed in the file on disk.
    CompressedOnFile,
    /// The frame is compressed in memory.
    Compressed(Vec<u8>),
    /// The frame is uncompressed in memory.
    Uncompressed {
        /// Compressed bytes kept to avoid compressing again when not dirty.
        compressed: Vec<u8>,
        /// The outcomes of the frame.
        uncompressed: Vec<MaybeDtcOutcome>,
        /// Whether the outcomes changed since `compressed` was made.
        dirty: bool,
    },
}

/// What `zeekstd` makes of a buffer: one seekable zstd frame and its seek
/// table.
pub uninterp spec fn zeekstd_compressed(data: Seq<u8>) -> Seq<u8>;

/// Compresses a buffer in memory with `zeekstd::Encoder` (`new` on a byte
/// vector, `compress`, `end_frame`, `finish`). The contract names the bytes
/// produced: they depend on the buffer alone. zeekstd reports an error only
/// for invalid options, a seek table that is full, or a writer that fails;
/// with the default options, a buffer under 4 GiB and a `Vec` as writer none
/// of these can happen, so the call succeeds. An allocation failure inside
/// zstd is not considered.
#[verifier::external_body]
fn compress_frame(data: &[u8]) -> (r: Result<Vec<u8>, EgtError>)
    requires
        data@.len() < 0x1_0000_0000,
    ensures
        r is Ok,
        r matches Ok(b) ==> b@ == zeekstd_compressed(data@),
{
    let mut out: Vec<u8> = Vec::new();
    let mut encoder = zeekstd::Encoder::new(&mut out).map_err(|_| EgtError::Compression)?;
    encoder.compress(data).map_err(|_| EgtError::Compression)?;
    encoder.end_frame().map_err(|_| EgtError::Compression)?;
    encoder.finish().map_err(|_| EgtError::Compression)?;
    Ok(out)
}

/// Decompresses the first `len` bytes of a seekable zstd buffer held in
/// memory, with `zeekstd::Decoder` over a `zeekstd::BytesWrapper` and
/// `read_exact`. The contract states that zstd is lossless: a buffer that
/// `compress_frame` made from `len` bytes decompresses, and gives back those
/// bytes. Of other buffers only the length of a result is stated.
#[verifier::external_body]
fn decompress_frame(compressed: &[u8], len: usize) -> (r: Result<Vec<u8>, EgtError>)
    ensures
        r matches Ok(v) ==> v@.len() == len,
        forall|d: Seq<u8>| #![trigger zeekstd_compressed(d)] compressed@ == zeekstd_compressed(d) && d.len() == len ==> r is Ok,
        r matches Ok(v) ==> forall|d: Seq<u8>|
            #![trigger zeekstd_compressed(d)]
            compressed@ == zeekstd_compressed(d) && d.len() == len ==> v@ == d,
{
    let wrapper = zeekstd::BytesWrapper::new(compressed);
    let mut decoder = zeekstd::Decoder::new(wrapper).map_err(|_| EgtError::Compression)?;
    let mut out = vec![0u8; len];
    std::io::Read::read_exact(&mut decoder, &mut out).map_err(|_| EgtError::Compression)?;
    Ok(out)
}

/// A frame of `n` invalid outcomes.
pub open spec fn invalid_frame(n: nat) -> Seq<MaybeDtcOutcome> {
    Seq::new(n, |i: int| MaybeDtcOutcome(0))
}

/// `b` is the compression of the bit-sliced form of `content`.
pub open spec fn compresses(b: Seq<u8>, content: Seq<MaybeDtcOutcome>) -> bool {
    exists|t: Seq<u8>| is_transposed(content, t) && b == #[trigger] zeekstd_compressed(t)
}

/// A frame in state `fs` holds the outcomes `content`. The content of a
/// frame on disk is whatever the file holds.
pub open spec fn frame_holds(fs: FrameState, content: Seq<MaybeDtcOutcome>, n: nat) -> bool {
    &&& content.len() == n
    &&& match fs {
        FrameState::Empty => content == invalid_frame(n),
        FrameState::CompressedOnFile => true,
        FrameState::Compressed(b) => compresses(b@, content),
        FrameState::Uncompressed { compressed, uncompressed, dirty } => uncompressed@ == content && (!dirty
            ==> compresses(compressed@, content)),
    }
}

/// The frames hold the contents, one frame each.
pub open spec fn frames_hold(frames: Seq<FrameState>, contents: Seq<Seq<MaybeDtcOutcome>>, n: nat) -> bool {
    &&& frames.len() == contents.len()
    &&& forall|f: int| 0 <= f < frames.len() ==> frame_holds(#[trigger] frames[f], contents[f], n)
}

/// A frame held in memory (empty, compressed or uncompressed), as opposed to
/// one whose outcomes are still only in the file on disk.
pub open spec fn frame_in_memory(fs: FrameState) -> bool {
    !(fs is CompressedOnFile)
}

/// Frame sizes the bit-sliced layout supports.
pub open spec fn good_frame_size(n: nat) -> bool {
    0 < n && n % 8 == 0 && n <= 0x1000_0000
}

/// Makes frame `f` uncompressed, decompressing it if it is compressed in
/// memory; fails exactly on a frame on disk (which has to be installed
/// first). The outcomes of every frame stay the same.
pub fn uncompress_frame_at(frames: &mut Vec<FrameState>, contents: Ghost<Seq<Seq<MaybeDtcOutcome>>>, frame_size: usize, f: usize) -> (r: Result<(), EgtError>)
    requires
        good_frame_size(frame_size as nat),
        frames_hold(old(frames)@, contents@, frame_size as nat),
        f < old(frames)@.len(),
    ensures
        frames_hold(final(frames)@, contents@, frame_size as nat),
        final(frames)@.len() == old(frames)@.len(),
        forall|g: int| 0 <= g < final(frames)@.len() && g != f ==> #[trigger] final(frames)@[g] == old(frames)@[g],
        r is Ok ==> final(frames)@[f as int] is Uncompressed,
        old(frames)@[f as int] is CompressedOnFile ==> r is Err && final(frames)@ == old(frames)@,
        frame_in_memory(old(frames)@[f as int]) ==> r is Ok,
{
    let ghost content = contents@[f as int];
    match &frames[f] {
        FrameState::Empty => {
            let uncompressed = vec![MaybeDtcOutcome(0); frame_size];
            assert(uncompressed@ =~= invalid_frame(frame_size as nat));
            frames.set(f, FrameState::Uncompressed { compressed: Vec::new(), uncompressed, dirty: true });
            Ok(())
        },
        FrameState::CompressedOnFile => Err(EgtError::FrameOnFile { frame: f as u64 }),
        FrameState::Compressed(bytes) => {
            let transposed = match decompress_frame(bytes.as_slice(), frame_size * 2) {
                Ok(t) => t,
                Err(e) => return Err(e),
            };
            proof {
                let t = choose|t: Seq<u8>| is_transposed(content, t) && bytes@ == #[trigger] zeekstd_compressed(t);
                assert(t.len() == 2 * frame_size);
                assert(transposed@ == t);
                crate::frame::lemma_needed_le(frame_size as int);
            }
            let uncompressed = detranspose_frame(transposed.as_slice(), frame_size);
            proof {
                let t = transposed@;
                lemma_frame_round_trip(content, t, uncompressed@);
            }
            frames.set(f, FrameState::Uncompressed { compressed: Vec::new(), uncompressed, dirty: true });
            Ok(())
        },
        FrameState::Uncompressed { .. } => Ok(()),
    }
}

/// Makes frame `f` compressed in memory; fails exactly on a frame on disk.
/// The outcomes of every frame stay the same.
pub fn compress_frame_at(frames: &mut Vec<FrameState>, contents: Ghost<Seq<Seq<MaybeDtcOutcome>>>, frame_size: usize, f: usize) -> (r: Result<(), EgtError>)
    requires
        good_frame_size(frame_size as nat),
        frames_hold(old(frames)@, contents@, frame_size as nat),
        f < old(frames)@.len(),
    ensures
        frames_hold(final(frames)@, contents@, frame_size as nat),
        final(frames)@.len() == old(frames)@.len(),
        forall|g: int| 0 <= g < final(frames)@.len() && g != f ==> #[trigger] final(frames)@[g] == old(frames)@[g],
        r is Ok ==> final(frames)@[f as int] is Compressed,
        old(frames)@[f as int] is CompressedOnFile ==> r is Err,
        old(frames)@[f as int] is Compressed ==> r is Ok && final(frames)@ == old(frames)@,
        frame_in_memory(old(frames)@[f as int]) ==> r is Ok,
{
    let is_uncompressed = match &frames[f] {
        FrameState::Empty | FrameState::CompressedOnFile => false,
        FrameState::Compressed(_) => return Ok(()),
        FrameState::Uncompressed { .. } => true,
    };
    if !is_uncompressed {
        match uncompress_frame_at(frames, contents, frame_size, f) {
            Ok(()) => {},
            Err(e) => return Err(e),
        }
    }
    let ghost content = contents@[f as int];
    let (keep, dirty) = match &frames[f] {
        FrameState::Uncompressed { compressed, dirty, .. } => (compressed.clone(), *dirty),
        _ => return Err(EgtError::Internal("frame not uncompressed")),
    };
    assert(keep@ == frames@[f as int]->compressed@);
    if !dirty {
        frames.set(f, FrameState::Compressed(keep));
        return Ok(());
    }
    let transposed = match &frames[f] {
        FrameState::Uncompressed { uncompressed, .. } => transpose_frame(uncompressed.as_slice()),
        _ => return Err(EgtError::Internal("frame not uncompressed")),
    };
    let bytes = match compress_frame(transposed.as_slice()) {
        Ok(b) => b,
        Err(e) => return Err(e),
    };
    assert(compresses(bytes@, content)) by {
        assert(is_transposed(content, transposed@) && bytes@ == zeekstd_compressed(transposed@));
    }
    frames.set(f, FrameState::Compressed(bytes));
    Ok(())
}

/// Sum of the index ranges of the first `k` tables.
pub open spec fn ranges_sum(egts: Seq<Egt>, k: int) -> nat
    decreases k,
{
    if k <= 0 {
        0
    } else {
        ranges_sum(egts, k - 1) + (egts[k - 1].indexer.index_range as nat)
    }
}

/// Number of outcomes of the first `k` frames for which `pred` holds.
pub open spec fn count_where(contents: Seq<Seq<MaybeDtcOutcome>>, k: int, pred: spec_fn(MaybeDtcOutcome) -> bool) -> nat
    decreases k,
{
    if k <= 0 {
        0
    } else {
        count_where(contents, k - 1, pred) + count_frame(contents[k - 1], contents[k - 1].len() as int, pred)
    }
}

/// Number of the first `k` outcomes of a frame for which `pred` holds.
pub open spec fn count_frame(vals: Seq<MaybeDtcOutcome>, k: int, pred: spec_fn(MaybeDtcOutcome) -> bool) -> nat
    decreases k,
{
    if k <= 0 {
        0
    } else {
        count_frame(vals, k - 1, pred) + (if pred(vals[k - 1]) { 1nat } else { 0nat })
    }
}

pub open spec fn is_win_value(v: MaybeDtcOutcome) -> bool {
    status(v.0) != 0 && status(v.0) % 2 == 0
}

pub open spec fn is_loss_value(v: MaybeDtcOutcome) -> bool {
    status(v.0) != 1 && status(v.0) % 2 == 1
}

pub open spec fn is_draw_value(v: MaybeDtcOutcome) -> bool {
    v.0 == 1
}

pub open spec fn is_invalid_value(v: MaybeDtcOutcome) -> bool {
    v.0 == 0
}

/// The entries have `m` pawns of `side` on file `f`: an entry with that
/// multiplicity when `m > 0`, and no entry of that side and file otherwise.
pub open spec fn pawn_entry_count(pieces: Seq<PieceEntry>, side: EgtSide, f: nat, m: nat) -> bool {
    if m > 0 {
        exists|e: int| 0 <= e < pieces.len() && #[trigger] pieces[e] == (EgtRole::Pawn(file_of(f)), side, m as usize)
    } else {
        forall|e: int| 0 <= e < pieces.len() ==> !((#[trigger] pieces[e]).0 == EgtRole::Pawn(file_of(f)) && pieces[e].1 == side)
    }
}

/// Table `t`, under key `k`, is the table of the pawns of the side to move
/// on the files `stm` and of the other side on the files `sntm`, both listed
/// by increasing file, a canonical configuration.
pub open spec fn table_config(t: Egt, k: PawnKey, stm: Seq<File>, sntm: Seq<File>) -> bool {
    &&& files_nondecreasing(stm)
    &&& files_nondecreasing(sntm)
    &&& stm.len() + sntm.len() <= 8
    &&& k.files@ == key_of(stm, sntm)
    &&& canonical(stm, sntm)
    &&& forall|f: nat| f < 8 ==> #[trigger] pawn_entry_count(t.pieces@, EgtSide::SideToMove, f, count_file(stm, f))
    &&& forall|f: nat| f < 8 ==> #[trigger] pawn_entry_count(t.pieces@, EgtSide::SideNotToMove, f, count_file(sntm, f))
}

/// Table `t` is the table of the pawn configuration of key `k`.
pub open spec fn table_of_key(t: Egt, k: PawnKey) -> bool {
    exists|stm: Seq<File>, sntm: Seq<File>| #[trigger] table_config(t, k, stm, sntm)
}

/// `p` is the mirror image of `q` across the line between the d and e files.
pub open spec fn mirror_of(p: BoardPosition, q: BoardPosition) -> bool {
    &&& p.turn == q.turn
    &&& p.squares@ == mirrored(q.squares@)
    &&& p.ep_square == (match q.ep_square {
        Some(s) => Some(mirror_square(s)),
        None => None,
    })
}

/// The pawn files of each side of `q` are their own reflection.
pub open spec fn symmetric_pawns(q: BoardPosition) -> bool {
    &&& reflected(pawn_files_upto(q.squares@, q.turn, 8)) == pawn_files_upto(q.squares@, q.turn, 8)
    &&& reflected(pawn_files_upto(q.squares@, opposite(q.turn), 8)) == pawn_files_upto(q.squares@, opposite(q.turn), 8)
}

/// The pawns of a position that an index of a table stands for are on the
/// files of the table's configuration.
#[verifier::rlimit(40)]
#[verifier::spinoff_prover]
proof fn lemma_decoded_config(t: Egt, k: PawnKey, stm: Seq<File>, sntm: Seq<File>, index: u64, p: BoardPosition)
    requires
        t.wf(),
        table_config(t, k, stm, sntm),
        p.squares@.len() == 64,
        t.indexer.decodes(index, p),
    ensures
        pawn_files_upto(p.squares@, p.turn, 8) == stm,
        pawn_files_upto(p.squares@, opposite(p.turn), 8) == sntm,
{
    let pieces = t.pieces@;
    assert forall|f: int| 0 <= f < 8 implies #[trigger] pawns_on_file(p.squares@, p.turn, f, 8) == count_file(stm, f as nat) by {
        t.lemma_decoded_pawn_entries(index, p, EgtSide::SideToMove, f);
        crate::pawn_files::lemma_count_file_le(stm, f as nat);
        assert(pawn_entry_count(pieces, EgtSide::SideToMove, f as nat, count_file(stm, f as nat)));
        if count_file(stm, f as nat) > 0 {
            let e = choose|e: int| 0 <= e < pieces.len() && #[trigger] pieces[e] == (EgtRole::Pawn(file_of(f as nat)), EgtSide::SideToMove, count_file(stm, f as nat) as usize);
            assert(pieces[e].0 == EgtRole::Pawn(file_of(f as nat)) && pieces[e].1 == EgtSide::SideToMove);
        }
    }
    assert forall|f: int| 0 <= f < 8 implies #[trigger] pawns_on_file(p.squares@, opposite(p.turn), f, 8) == count_file(sntm, f as nat) by {
        t.lemma_decoded_pawn_entries(index, p, EgtSide::SideNotToMove, f);
        crate::pawn_files::lemma_count_file_le(sntm, f as nat);
        assert(pawn_entry_count(pieces, EgtSide::SideNotToMove, f as nat, count_file(sntm, f as nat)));
        if count_file(sntm, f as nat) > 0 {
            let e = choose|e: int| 0 <= e < pieces.len() && #[trigger] pieces[e] == (EgtRole::Pawn(file_of(f as nat)), EgtSide::SideNotToMove, count_file(sntm, f as nat) as usize);
            assert(pieces[e].0 == EgtRole::Pawn(file_of(f as nat)) && pieces[e].1 == EgtSide::SideNotToMove);
        }
    }
    lemma_pawn_files_sorted(p.squares@, p.turn, stm, 8);
    lemma_sorted_files(stm);
    lemma_pawn_files_sorted(p.squares@, opposite(p.turn), sntm, 8);
    lemma_sorted_files(sntm);
}

/// What the pawn entries of a side hold: one entry per file with pawns.
proof fn lemma_pawn_entries_contains(s: Seq<File>, side: EgtSide, g: nat, x: PieceEntry)
    ensures
        pawn_entries(s, side, g).contains(x) <==> exists|f: nat| f < g && #[trigger] count_file(s, f) > 0 && x == (
            EgtRole::Pawn(file_of(f)),
            side,
            count_file(s, f) as usize,
        ),
    decreases g,
{
    if g > 0 {
        let f = (g - 1) as nat;
        lemma_pawn_entries_contains(s, side, f, x);
        let a = pawn_entries(s, side, f);
        let t = if count_file(s, f) > 0 {
            seq![(EgtRole::Pawn(file_of(f)), side, count_file(s, f) as usize)]
        } else {
            Seq::<PieceEntry>::empty()
        };
        let pe = pawn_entries(s, side, g);
        assert(pe == a + t);
        if pe.contains(x) {
            let i = choose|i: int| 0 <= i < pe.len() && pe[i] == x;
            if i < a.len() {
                assert(a[i] == x);
                assert(a.contains(x));
            } else {
                assert(t[i - a.len()] == x);
                assert(count_file(s, f) > 0);
            }
        }
        if exists|f2: nat| f2 < g && #[trigger] count_file(s, f2) > 0 && x == (EgtRole::Pawn(file_of(f2)), side, count_file(s, f2) as usize) {
            let f2 = choose|f2: nat| f2 < g && #[trigger] count_file(s, f2) > 0 && x == (EgtRole::Pawn(file_of(f2)), side, count_file(s, f2) as usize);
            if f2 < f {
                let i = choose|i: int| 0 <= i < a.len() && a[i] == x;
                assert(pe[i] == x);
            } else {
                assert(pe[a.len() as int] == x);
            }
        }
    }
}

/// The entries with the pawns of `side` of a list `pieces` whose entries of
/// that side's pawns are those of `s` give the counts of `s`, in any order.
#[verifier::rlimit(40)]
#[verifier::spinoff_prover]
proof fn lemma_side_entry_counts(ps: Seq<PieceEntry>, pieces: Seq<PieceEntry>, s: Seq<File>, side: EgtSide)
    requires
        s.len() <= 8,
        forall|x: PieceEntry| ps.contains(x) <==> pieces.contains(x),
        forall|y: PieceEntry| #[trigger] pieces.contains(y) && y.0 is Pawn && y.1 == side ==> pawn_entries(s, side, 8).contains(y),
        forall|y: PieceEntry| #[trigger] pawn_entries(s, side, 8).contains(y) ==> pieces.contains(y),
    ensures
        forall|f: nat| f < 8 ==> #[trigger] pawn_entry_count(ps, side, f, count_file(s, f)),
{
    assert forall|f: nat| f < 8 implies #[trigger] pawn_entry_count(ps, side, f, count_file(s, f)) by {
        crate::pawn_files::lemma_count_file_le(s, f);
        let m = count_file(s, f);
        let x = (EgtRole::Pawn(file_of(f)), side, m as usize);
        if m > 0 {
            lemma_pawn_entries_contains(s, side, 8, x);
            assert(pawn_entries(s, side, 8).contains(x));
            assert(ps.contains(x));
            let e = choose|e: int| 0 <= e < ps.len() && ps[e] == x;
            assert(ps[e] == x);
        } else {
            assert forall|e: int| 0 <= e < ps.len() implies !((#[trigger] ps[e]).0 == EgtRole::Pawn(file_of(f)) && ps[e].1 == side) by {
                let y = ps[e];
                assert(ps.contains(y));
                if y.0 == EgtRole::Pawn(file_of(f)) && y.1 == side {
                    assert(pieces.contains(y));
                    assert(pawn_entries(s, side, 8).contains(y));
                    lemma_pawn_entries_contains(s, side, 8, y);
                    let f2 = choose|f2: nat| f2 < 8 && #[trigger] count_file(s, f2) > 0 && y == (EgtRole::Pawn(file_of(f2)), side, count_file(s, f2) as usize);
                    crate::pawn_files::lemma_file_of_index(f);
                    crate::pawn_files::lemma_file_of_index(f2);
                }
            }
        }
    }
}

/// A table set up from the entries of a pawn configuration and of the
/// other pieces is the table of that configuration.
#[verifier::rlimit(40)]
#[verifier::spinoff_prover]
proof fn lemma_built_table(egt: Egt, key: PawnKey, stm: Seq<File>, sntm: Seq<File>, other: Seq<PieceEntry>, pieces: Seq<PieceEntry>)
    requires
        files_nondecreasing(stm),
        files_nondecreasing(sntm),
        stm.len() + sntm.len() <= 8,
        key.files@ == key_of(stm, sntm),
        canonical(stm, sntm),
        forall|i: int| 0 <= i < other.len() ==> !((#[trigger] other[i]).0 is Pawn),
        pieces == other + pawn_entries(stm, EgtSide::SideToMove, 8) + pawn_entries(sntm, EgtSide::SideNotToMove, 8),
        egt.pieces@.to_multiset() == pieces.to_multiset(),
    ensures
        table_config(egt, key, stm, sntm),
{
    broadcast use vstd::seq_lib::group_to_multiset_ensures;

    let ps = egt.pieces@;
    let a = other;
    let b = pawn_entries(stm, EgtSide::SideToMove, 8);
    let c = pawn_entries(sntm, EgtSide::SideNotToMove, 8);
    assert forall|x: PieceEntry| ps.contains(x) <==> pieces.contains(x) by {
        assert(ps.to_multiset().count(x) == pieces.to_multiset().count(x));
    }
    // Where an entry of the list comes from.
    assert forall|y: PieceEntry| #[trigger] pieces.contains(y) && y.0 is Pawn implies b.contains(y) || c.contains(y) by {
        let i = choose|i: int| 0 <= i < pieces.len() && pieces[i] == y;
        if i < a.len() {
            assert(a[i] == y);
        } else if i < a.len() + b.len() {
            assert(b[i - a.len()] == y);
        } else {
            assert(c[i - a.len() - b.len()] == y);
        }
    }
    assert forall|y: PieceEntry| #[trigger] b.contains(y) implies pieces.contains(y) && y.1 == EgtSide::SideToMove by {
        let i = choose|i: int| 0 <= i < b.len() && b[i] == y;
        assert(pieces[a.len() + i] == y);
        lemma_pawn_entries_contains(stm, EgtSide::SideToMove, 8, y);
    }
    assert forall|y: PieceEntry| #[trigger] c.contains(y) implies pieces.contains(y) && y.1 == EgtSide::SideNotToMove by {
        let i = choose|i: int| 0 <= i < c.len() && c[i] == y;
        assert(pieces[a.len() + b.len() + i] == y);
        lemma_pawn_entries_contains(sntm, EgtSide::SideNotToMove, 8, y);
    }
    lemma_side_entry_counts(ps, pieces, stm, EgtSide::SideToMove);
    lemma_side_entry_counts(ps, pieces, sntm, EgtSide::SideNotToMove);
}

/// A file with the tables of one endgame (e.g. "KQ_KP").
pub struct EgtFile {
    /// The name of the endgame.
    pub endgame: String,
    /// Path of the file on disk.
    pub path: std::path::PathBuf,
    /// The tables of the file, by increasing key.
    pub egts: Vec<Egt>,
    /// The key of each table: the files of its pawns.
    pub egt_keys: Vec<PawnKey>,
    /// The frames of the file.
    pub frames: Vec<FrameState>,
    /// Number of outcomes per frame.
    pub frame_size: usize,
    /// Total number of indexes of the tables of the file.
    pub index_range: u64,
    /// The outcomes held by each frame.
    pub contents: Ghost<Seq<Seq<MaybeDtcOutcome>>>,
}

impl EgtFile {
    pub open spec fn wf(&self) -> bool {
        &&& good_frame_size(self.frame_size as nat)
        &&& frames_hold(self.frames@, self.contents@, self.frame_size as nat)
        &&& self.frames@.len() * self.frame_size >= self.index_range
        &&& self.egts@.len() == self.egt_keys@.len()
        &&& forall|e: int| 0 <= e < self.egts@.len() ==> (#[trigger] self.egts@[e]).wf()
        &&& self.index_range == ranges_sum(self.egts@, self.egts@.len() as int)
        &&& forall|a: int, b: int|
            0 <= a < b < self.egt_keys@.len() ==> lex_lt((#[trigger] self.egt_keys@[a]).files@, (#[trigger] self.egt_keys@[b]).files@)
        &&& forall|e: int| 0 <= e < self.egts@.len() ==> #[trigger] table_of_key(self.egts@[e], self.egt_keys@[e])
    }

    /// The frame of a global index.
    pub open spec fn frame_of(&self, index: int) -> int {
        index / (self.frame_size as int)
    }

    /// The position of a global index in its frame.
    pub open spec fn offset_of(&self, index: int) -> int {
        index % (self.frame_size as int)
    }

    /// The outcome stored at a global index.
    pub open spec fn stored(&self, index: int) -> MaybeDtcOutcome {
        self.contents@[self.frame_of(index)][self.offset_of(index)]
    }

    /// The frame of a global index is held in memory.
    pub open spec fn in_memory_at(&self, index: int) -> bool {
        frame_in_memory(self.frames@[self.frame_of(index)])
    }

    /// Every frame held in memory in `before` still is.
    pub open spec fn keeps_in_memory(&self, before: &EgtFile) -> bool {
        &&& self.frames@.len() == before.frames@.len()
        &&& forall|g: int| 0 <= g < self.frames@.len() && frame_in_memory(#[trigger] before.frames@[g]) ==> frame_in_memory(self.frames@[g])
    }

    /// The file with the same tables and outcomes.
    pub open spec fn same_data(&self, other: &EgtFile) -> bool {
        &&& self.contents@ == other.contents@
        &&& self.frame_size == other.frame_size
        &&& self.index_range == other.index_range
        &&& self.frames@.len() == other.frames@.len()
        &&& self.egts@.len() == other.egts@.len()
        &&& self.egt_keys@ == other.egt_keys@
        &&& forall|e: int| 0 <= e < self.egts@.len() ==> (#[trigger] self.egts@[e]).indexer == other.egts@[e].indexer
            && self.egts@[e].pieces@ == other.egts@[e].pieces@
    }

    pub(crate) proof fn lemma_frame_of(&self, index: int)
        requires
            self.wf(),
            0 <= index < self.index_range,
        ensures
            0 <= self.frame_of(index) < self.frames@.len(),
            0 <= self.offset_of(index) < self.frame_size,
            self.contents@[self.frame_of(index)].len() == self.frame_size,
    {
        let n = self.frame_size as int;
        let f = index / n;
        assert(f * n <= index) by (nonlinear_arith)
            requires
                n > 0,
                f == index / n,
                index >= 0,
        ;
        assert(f < self.frames@.len()) by (nonlinear_arith)
            requires
                n > 0,
                f * n <= index,
                index < self.frames@.len() * n,
        ;
        assert(frame_holds(self.frames@[f], self.contents@[f], n as nat));
    }

    /// Makes a frame uncompressed (see `uncompress_frame_at`).
    pub fn ensure_uncompressed(&mut self, frame_idx: usize) -> (r: Result<(), EgtError>)
        requires
            old(self).wf(),
            frame_idx < old(self).frames@.len(),
        ensures
            final(self).wf(),
            final(self).same_data(old(self)),
            r is Ok ==> final(self).frames@[frame_idx as int] is Uncompressed,
            frame_in_memory(old(self).frames@[frame_idx as int]) ==> r is Ok,
            forall|g: int| 0 <= g < final(self).frames@.len() && g != frame_idx ==> #[trigger] final(self).frames@[g] == old(self).frames@[g],
            final(self).keeps_in_memory(old(self)),
    {
        let r = uncompress_frame_at(&mut self.frames, self.contents, self.frame_size, frame_idx);
        proof {
            assert forall|g: int| 0 <= g < self.frames@.len() && frame_in_memory(#[trigger] old(self).frames@[g]) implies frame_in_memory(self.frames@[g]) by {
                if g != frame_idx {
                    assert(self.frames@[g] == old(self).frames@[g]);
                }
            }
        }
        r
    }

    /// Makes a frame compressed in memory (see `compress_frame_at`).
    pub fn ensure_compressed(&mut self, frame_idx: usize) -> (r: Result<(), EgtError>)
        requires
            old(self).wf(),
            frame_idx < old(self).frames@.len(),
        ensures
            final(self).wf(),
            final(self).same_data(old(self)),
            r is Ok ==> final(self).frames@[frame_idx as int] is Compressed,
            old(self).frames@[frame_idx as int] is CompressedOnFile ==> r is Err,
            old(self).frames@[frame_idx as int] is Compressed ==> r is Ok && final(self).frames@ == old(self).frames@,
            frame_in_memory(old(self).frames@[frame_idx as int]) ==> r is Ok,
            final(self).keeps_in_memory(old(self)),
            forall|g: int| 0 <= g < final(self).frames@.len() && g != frame_idx ==> #[trigger] final(self).frames@[g] == old(self).frames@[g],
    {
        compress_frame_at(&mut self.frames, self.contents, self.frame_size, frame_idx)
    }

    /// Reads the outcome stored at a global index. Fails on an index out of
    /// range, and on a frame that is on disk.
    pub fn read_from_index(&mut self, index: u64) -> (r: Result<MaybeDtcOutcome, EgtError>)
        requires
            old(self).wf(),
        ensures
            final(self).wf(),
            final(self).same_data(old(self)),
            index >= old(self).index_range ==> r == Err::<MaybeDtcOutcome, EgtError>(
                EgtError::IndexOutOfRange { index, range: old(self).index_range },
            ),
            r matches Ok(v) ==> v == old(self).stored(index as int),
            index < old(self).index_range && old(self).in_memory_at(index as int) ==> r is Ok,
            final(self).keeps_in_memory(old(self)),
    {
        if index >= self.index_range {
            return Err(EgtError::IndexOutOfRange { index, range: self.index_range });
        }
        proof {
            self.lemma_frame_of(index as int);
        }
        let q = index / self.frame_size as u64;
        let m = index % self.frame_size as u64;
        assert(q as int == self.frame_of(index as int));
        assert(m as int == self.offset_of(index as int));
        assert(q < self.frames.len());
        let frame_idx = q as usize;
        let offset = m as usize;
        match self.ensure_uncompressed(frame_idx) {
            Ok(()) => {},
            Err(e) => return Err(e),
        }
        assert(frame_holds(self.frames@[frame_idx as int], self.contents@[frame_idx as int], self.frame_size as nat));
        match &self.frames[frame_idx] {
            FrameState::Uncompressed { uncompressed, .. } => Ok(uncompressed[offset]),
            _ => Err(EgtError::Internal("frame not uncompressed")),
        }
    }

    /// Writes an outcome at a global index. Fails on an index out of range,
    /// and on a frame that is on disk.
    pub fn write_to_index(&mut self, index: u64, outcome: MaybeDtcOutcome) -> (r: Result<(), EgtError>)
        requires
            old(self).wf(),
        ensures
            final(self).wf(),
            index >= old(self).index_range ==> r == Err::<(), EgtError>(
                EgtError::IndexOutOfRange { index, range: old(self).index_range },
            ),
            r is Err ==> final(self).same_data(old(self)),
            r is Ok ==> index < old(self).index_range && final(self).contents@ == old(self).contents@.update(
                old(self).frame_of(index as int),
                old(self).contents@[old(self).frame_of(index as int)].update(old(self).offset_of(index as int), outcome),
            ),
            r is Ok ==> final(self).stored(index as int) == outcome,
            index < old(self).index_range && old(self).in_memory_at(index as int) ==> r is Ok,
            final(self).keeps_in_memory(old(self)),
            final(self).frame_size == old(self).frame_size,
            final(self).index_range == old(self).index_range,
            final(self).frames@.len() == old(self).frames@.len(),
            final(self).egt_keys@ == old(self).egt_keys@,
            final(self).egts@.len() == old(self).egts@.len(),
            forall|e: int| 0 <= e < final(self).egts@.len() ==> (#[trigger] final(self).egts@[e]).indexer == old(self).egts@[e].indexer
                && final(self).egts@[e].pieces@ == old(self).egts@[e].pieces@,
    {
        if index >= self.index_range {
            return Err(EgtError::IndexOutOfRange { index, range: self.index_range });
        }
        proof {
            self.lemma_frame_of(index as int);
        }
        let q = index / self.frame_size as u64;
        let m = index % self.frame_size as u64;
        assert(q as int == self.frame_of(index as int));
        assert(m as int == self.offset_of(index as int));
        assert(q < self.frames.len());
        let frame_idx = q as usize;
        let offset = m as usize;
        match self.ensure_uncompressed(frame_idx) {
            Ok(()) => {},
            Err(e) => return Err(e),
        }
        let ghost before = self.contents@;
        assert(frame_holds(self.frames@[frame_idx as int], self.contents@[frame_idx as int], self.frame_size as nat));
        let mut tmp = FrameState::Empty;
        std::mem::swap(&mut tmp, &mut self.frames[frame_idx]);
        match tmp {
            FrameState::Uncompressed { compressed, mut uncompressed, dirty } => {
                uncompressed.set(offset, outcome);
                self.frames.set(frame_idx, FrameState::Uncompressed { compressed, uncompressed, dirty: true });
                proof {
                    self.contents@ = before.update(frame_idx as int, before[frame_idx as int].update(offset as int, outcome));
                    assert forall|g: int| 0 <= g < self.frames@.len() implies frame_holds(#[trigger] self.frames@[g], self.contents@[g], self.frame_size as nat) by {
                        if g != frame_idx {
                            assert(self.frames@[g] == old(self).frames@[g] || g == frame_idx);
                        }
                    }
                }
                Ok(())
            },
            other => {
                self.frames.set(frame_idx, other);
                Err(EgtError::Internal("frame not uncompressed"))
            },
        }
    }
}

/// The class of a stored value as counted by `count_outcomes`: 0 win,
/// 1 draw, 2 loss, 3 invalid, 4 unknown.
pub open spec fn value_class(v: MaybeDtcOutcome) -> nat {
    if is_win_value(v) {
        0
    } else if is_loss_value(v) {
        2
    } else if is_draw_value(v) {
        1
    } else if is_invalid_value(v) {
        3
    } else {
        4
    }
}

/// The classes that `count_outcomes` counts, read off the stored bits: wins
/// have status 2, 4 or 6 (checkmate, capture, promotion), losses 3, 5 or 7,
/// a draw is the value 1 and an invalid entry the value 0; everything else
/// (positions still unknown, and a status 1 with a counter) is in none of
/// the counted classes.
pub proof fn lemma_value_class(v: MaybeDtcOutcome)
    ensures
        value_class(v) == 0 <==> (v.0 % 8 == 2 || v.0 % 8 == 4 || v.0 % 8 == 6),
        value_class(v) == 2 <==> (v.0 % 8 == 3 || v.0 % 8 == 5 || v.0 % 8 == 7),
        value_class(v) == 1 <==> v.0 == 1,
        value_class(v) == 3 <==> v.0 == 0,
        value_class(v) == 4 <==> ((v.0 % 8 == 0 && v.0 != 0) || (v.0 % 8 == 1 && v.0 != 1)),
{
}

/// Number of the first `k` values of a frame in class `c`.
pub open spec fn frame_class_count(vals: Seq<MaybeDtcOutcome>, k: int, c: nat) -> nat
    decreases k,
{
    if k <= 0 {
        0
    } else {
        frame_class_count(vals, k - 1, c) + (if value_class(vals[k - 1]) == c { 1nat } else { 0nat })
    }
}

/// Number of values in class `c` in the first `k` frames.
pub open spec fn class_count(contents: Seq<Seq<MaybeDtcOutcome>>, k: int, c: nat) -> nat
    decreases k,
{
    if k <= 0 {
        0
    } else {
        class_count(contents, k - 1, c) + frame_class_count(contents[k - 1], contents[k - 1].len() as int, c)
    }
}

proof fn lemma_frame_class_le(vals: Seq<MaybeDtcOutcome>, k: int, c: nat)
    requires
        0 <= k,
    ensures
        frame_class_count(vals, k, c) <= k,
    decreases k,
{
    if k > 0 {
        lemma_frame_class_le(vals, k - 1, c);
    }
}

/// Values of one class in the first `k` frames of `n` values each are at most `k * n`.
proof fn lemma_class_count_le(contents: Seq<Seq<MaybeDtcOutcome>>, k: int, c: nat, n: nat)
    requires
        0 <= k <= contents.len(),
        forall|g: int| 0 <= g < k ==> (#[trigger] contents[g]).len() == n,
    ensures
        class_count(contents, k, c) <= k * n,
    decreases k,
{
    if k > 0 {
        lemma_class_count_le(contents, k - 1, c, n);
        lemma_frame_class_le(contents[k - 1], contents[k - 1].len() as int, c);
        assert((k - 1) * n + n == k * n) by (nonlinear_arith);
    }
}

proof fn lemma_invalid_frame_counts(n: nat, k: int, c: nat)
    requires
        0 <= k <= n,
    ensures
        frame_class_count(invalid_frame(n), k, c) == (if c == 3 { k as nat } else { 0nat }),
    decreases k,
{
    if k > 0 {
        lemma_invalid_frame_counts(n, k - 1, c);
        assert(invalid_frame(n)[k - 1] == MaybeDtcOutcome(0));
        assert(status(0u16) == 0);
    }
}

pub proof fn lemma_ranges_mono(egts: Seq<Egt>, a: int, b: int)
    requires
        0 <= a <= b <= egts.len(),
    ensures
        ranges_sum(egts, a) <= ranges_sum(egts, b),
    decreases b,
{
    if a < b {
        lemma_ranges_mono(egts, a, b - 1);
    }
}

pub proof fn lemma_ranges_same(egts: Seq<Egt>, other: Seq<Egt>, k: int)
    requires
        0 <= k <= egts.len(),
        k <= other.len(),
        forall|e: int| 0 <= e < k ==> (#[trigger] egts[e]).indexer.index_range == other[e].indexer.index_range,
    ensures
        ranges_sum(egts, k) == ranges_sum(other, k),
    decreases k,
{
    if k > 0 {
        lemma_ranges_same(egts, other, k - 1);
    }
}

/// `PathBuf::join`: the path of `name` inside `base`. Nothing is stated of
/// the path.
#[verifier::external_body]
fn join_path(base: &std::path::PathBuf, name: &str) -> std::path::PathBuf {
    base.join(name)
}

/// The file name of an endgame: its name followed by `.ggegt`.
fn table_file_name(endgame: &str) -> (r: String)
    requires
        all_ascii(endgame.spec_bytes()),
    ensures
        r@ == ascii_chars(endgame.spec_bytes() + seq![46u8, 103u8, 103u8, 101u8, 103u8, 116u8]),
{
    let b = endgame.as_bytes();
    let mut out: Vec<u8> = Vec::new();
    let mut i: usize = 0;
    while i < b.len()
        invariant
            0 <= i <= b@.len(),
            b@ == endgame.spec_bytes(),
            all_ascii(b@),
            out@ == b@.take(i as int),
        decreases b.len() - i,
    {
        out.push(b[i]);
        i += 1;
        assert(out@ =~= b@.take(i as int));
    }
    assert(b@.take(b.len() as int) =~= b@);
    out.push(46u8);
    out.push(103u8);
    out.push(103u8);
    out.push(101u8);
    out.push(103u8);
    out.push(116u8);
    assert(out@ =~= b@ + seq![46u8, 103u8, 103u8, 101u8, 103u8, 116u8]);
    string_from_ascii(out)
}

/// A valid endgame name is ASCII.
proof fn lemma_name_ascii(b: Seq<u8>)
    requires
        underscore_pos(b) < b.len(),
        valid_side(b.subrange(0, underscore_pos(b))),
        valid_side(b.subrange(underscore_pos(b) + 1, b.len() as int)),
    ensures
        all_ascii(b),
{
    crate::tables::lemma_underscore_pos(b);
    let u = underscore_pos(b);
    assert forall|i: int| 0 <= i < b.len() implies b[i] < 128 by {
        if i < u {
            assert(is_piece_letter(b.subrange(0, u)[i]));
        } else if i > u {
            assert(is_piece_letter(b.subrange(u + 1, b.len() as int)[i - u - 1]));
        }
    }
}

/// The pieces of the table of a pawn configuration: the pieces other than
/// pawns, then the pawns of each side, file by file.
pub open spec fn config_listing(stm: Seq<File>, sntm: Seq<File>, other: Seq<PieceEntry>) -> Seq<PieceEntry> {
    other + pawn_entries(stm, EgtSide::SideToMove, 8) + pawn_entries(sntm, EgtSide::SideNotToMove, 8)
}

/// Some order of the pieces is a listing that `Egt::from_pieces` indexes.
pub open spec fn listing_fits(pieces: Seq<PieceEntry>) -> bool {
    exists|s: Seq<PieceEntry>|
        #[trigger] s.to_multiset() == pieces.to_multiset() && entries_sorted(s) && listing_ok(s) && files_fit(listed_elements(s))
            && ep_fit(s)
}

/// Every canonical assignment of files to `ks` pawns of the side to move and
/// `ks2` of the other side gives, with the other pieces, a listing that fits.
pub open spec fn configs_fit(ks: nat, ks2: nat, other: Seq<PieceEntry>) -> bool {
    forall|x: Seq<File>, y: Seq<File>|
        words(ks, 0, 8).contains(file_indexes(x)) && words(ks2, 0, 8).contains(file_indexes(y)) && canonical(x, y) ==> listing_fits(
            #[trigger] config_listing(x, y, other),
        )
}

/// A valid endgame name with more than eight pawns.
pub open spec fn too_many_pawns(b: Seq<u8>) -> bool {
    let u = underscore_pos(b);
    let stm = b.subrange(0, u);
    let sntm = b.subrange(u + 1, b.len() as int);
    u < b.len() && valid_side(stm) && valid_side(sntm) && count_byte(stm, 80u8) + count_byte(sntm, 80u8) > 8
}

/// An endgame name that is valid, has at most eight pawns, and every table
/// of whose pawn configurations can be indexed.
pub open spec fn endgame_fits(b: Seq<u8>) -> bool {
    let u = underscore_pos(b);
    let stm = b.subrange(0, u);
    let sntm = b.subrange(u + 1, b.len() as int);
    &&& u < b.len() && valid_side(stm) && valid_side(sntm)
    &&& count_byte(stm, 80u8) + count_byte(sntm, 80u8) <= 8
    &&& configs_fit(
        count_byte(stm, 80u8),
        count_byte(sntm, 80u8),
        side_entries(stm, EgtSide::SideToMove) + side_entries(sntm, EgtSide::SideNotToMove),
    )
}

/// Table `t`, under key `k`, is the table of a canonical pawn configuration
/// of `ks` pawns of the side to move and `ks2` of the other side: its pieces
/// are the other pieces and those pawns.
pub open spec fn table_of_config(t: Egt, k: PawnKey, ks: nat, ks2: nat, other: Seq<PieceEntry>) -> bool {
    exists|x: Seq<File>, y: Seq<File>|
        words(ks, 0, 8).contains(file_indexes(x)) && words(ks2, 0, 8).contains(file_indexes(y)) && canonical(x, y)
            && k.files@ == #[trigger] key_of(x, y) && t.pieces@.to_multiset() == config_listing(x, y, other).to_multiset()
}

/// Some key of the list is `k`.
pub open spec fn key_listed(keys: Seq<PawnKey>, k: Seq<u8>) -> bool {
    exists|e: int| 0 <= e < keys.len() && #[trigger] keys[e].files@ == k
}

/// `egts`, under `keys`, are the tables of the endgame named `b`: each is
/// the table of a canonical pawn configuration of the name's pawns with the
/// name's other pieces, every such configuration has its key listed, and
/// the keys increase.
pub open spec fn tables_for(b: Seq<u8>, egts: Seq<Egt>, keys: Seq<PawnKey>) -> bool {
    let u = underscore_pos(b);
    let stm = b.subrange(0, u);
    let sntm = b.subrange(u + 1, b.len() as int);
    let ks = count_byte(stm, 80u8);
    let ks2 = count_byte(sntm, 80u8);
    let other = side_entries(stm, EgtSide::SideToMove) + side_entries(sntm, EgtSide::SideNotToMove);
    &&& egts.len() == keys.len()
    &&& forall|e: int| 0 <= e < egts.len() ==> #[trigger] table_of_config(egts[e], keys[e], ks, ks2, other)
    &&& forall|x: Seq<File>, y: Seq<File>|
        words(ks, 0, 8).contains(file_indexes(x)) && words(ks2, 0, 8).contains(file_indexes(y)) && canonical(x, y) ==> key_listed(
            keys,
            #[trigger] key_of(x, y),
        )
    &&& forall|a: int, c: int| 0 <= a < c < keys.len() ==> lex_lt((#[trigger] keys[a]).files@, (#[trigger] keys[c]).files@)
}

/// The tables of `file` are those of the endgame named `b`.
pub open spec fn file_tables(file: EgtFile, b: Seq<u8>) -> bool {
    tables_for(b, file.egts@, file.egt_keys@)
}

/// The tables of the endgame named `b` hold more indexes than fit in 64 bits.
pub open spec fn tables_too_large(b: Seq<u8>) -> bool {
    exists|egts: Seq<Egt>, keys: Seq<PawnKey>| #[trigger] tables_for(b, egts, keys) && ranges_sum(egts, egts.len() as int) > u64::MAX
}

/// Lists of files with the same file indexes are the same.
proof fn lemma_file_indexes_injective(x: Seq<File>, y: Seq<File>)
    requires
        file_indexes(x) == file_indexes(y),
    ensures
        x == y,
{
    assert(x.len() == file_indexes(x).len());
    assert(y.len() == file_indexes(y).len());
    assert forall|i: int| 0 <= i < x.len() implies x[i] == y[i] by {
        assert(file_indexes(x)[i] == file_indexes(y)[i]);
        assert(file_indexes(x)[i] == file_index(x[i]) as u8);
        assert(file_indexes(y)[i] == file_index(y[i]) as u8);
        match x[i] {
            File::A => {}, File::B => {}, File::C => {}, File::D => {},
            File::E => {}, File::F => {}, File::G => {}, File::H => {},
        }
        match y[i] {
            File::A => {}, File::B => {}, File::C => {}, File::D => {},
            File::E => {}, File::F => {}, File::G => {}, File::H => {},
        }
    }
    assert(x =~= y);
}

/// Inserting a key keeps the keys listed and lists the new one.
proof fn lemma_keys_insert(old_keys: Seq<PawnKey>, new_keys: Seq<PawnKey>, pos: int, key: PawnKey)
    requires
        0 <= pos <= old_keys.len(),
        new_keys == old_keys.insert(pos, key),
    ensures
        key_listed(new_keys, key.files@),
        forall|k: Seq<u8>| key_listed(old_keys, k) ==> #[trigger] key_listed(new_keys, k),
{
    assert(new_keys[pos].files@ == key.files@);
    assert forall|k: Seq<u8>| key_listed(old_keys, k) implies #[trigger] key_listed(new_keys, k) by {
        let e = choose|e: int| 0 <= e < old_keys.len() && #[trigger] old_keys[e].files@ == k;
        if e < pos {
            assert(new_keys[e] == old_keys[e]);
        } else {
            assert(new_keys[e + 1] == old_keys[e]);
        }
    }
}

/// Every canonical configuration of the file combinations has its key
/// listed once every pair of combinations has been visited.
proof fn lemma_all_configs_listed(sc: Seq<Vec<File>>, tc: Seq<Vec<File>>, ks: nat, ks2: nat, keys: Seq<PawnKey>)
    requires
        sc.len() == words(ks, 0, 8).len(),
        forall|i: int| 0 <= i < sc.len() ==> (#[trigger] sc[i])@.map_values(|f: File| file_index(f) as u8) == words(ks, 0, 8)[i],
        tc.len() == words(ks2, 0, 8).len(),
        forall|i: int| 0 <= i < tc.len() ==> (#[trigger] tc[i])@.map_values(|f: File| file_index(f) as u8) == words(ks2, 0, 8)[i],
        forall|a2: int, b2: int|
            0 <= a2 < sc.len() && 0 <= b2 < tc.len() && canonical(sc[a2]@, tc[b2]@) ==> key_listed(
                keys,
                #[trigger] key_of(sc[a2]@, tc[b2]@),
            ),
    ensures
        forall|x: Seq<File>, y: Seq<File>|
            words(ks, 0, 8).contains(file_indexes(x)) && words(ks2, 0, 8).contains(file_indexes(y)) && canonical(x, y) ==> key_listed(
                keys,
                #[trigger] key_of(x, y),
            ),
{
    assert forall|x: Seq<File>, y: Seq<File>|
        words(ks, 0, 8).contains(file_indexes(x)) && words(ks2, 0, 8).contains(file_indexes(y)) && canonical(x, y) implies key_listed(
            keys,
            #[trigger] key_of(x, y),
        ) by {
        let i = choose|i: int| 0 <= i < words(ks, 0, 8).len() && words(ks, 0, 8)[i] == file_indexes(x);
        let j = choose|j: int| 0 <= j < words(ks2, 0, 8).len() && words(ks2, 0, 8)[j] == file_indexes(y);
        assert(file_indexes(sc[i]@) == words(ks, 0, 8)[i]);
        assert(file_indexes(tc[j]@) == words(ks2, 0, 8)[j]);
        lemma_file_indexes_injective(sc[i]@, x);
        lemma_file_indexes_injective(tc[j]@, y);
        assert(key_listed(keys, key_of(sc[i]@, tc[j]@)));
    }
}

/// The key `k` is that of a configuration listed before `(a, b)`.
pub open spec fn key_before(k: Seq<u8>, sc: Seq<Vec<File>>, tc: Seq<Vec<File>>, a: int, b: int) -> bool {
    exists|a2: int, b2: int|
        0 <= a2 < sc.len() && 0 <= b2 < tc.len() && (a2 < a || (a2 == a && b2 < b)) && k == #[trigger] key_of(sc[a2]@, tc[b2]@)
}

/// The key of the configuration `(a, b)` of the file combinations was not
/// listed before it.
proof fn lemma_key_new(sc: Seq<Vec<File>>, tc: Seq<Vec<File>>, ks: nat, ks2: nat, a: int, b: int, k: Seq<u8>)
    requires
        0 <= a < sc.len(),
        0 <= b < tc.len(),
        ks + ks2 <= 8,
        sc.len() == words(ks, 0, 8).len(),
        forall|i: int| 0 <= i < sc.len() ==> (#[trigger] sc[i])@.map_values(|f: File| file_index(f) as u8) == words(ks, 0, 8)[i],
        tc.len() == words(ks2, 0, 8).len(),
        forall|i: int| 0 <= i < tc.len() ==> (#[trigger] tc[i])@.map_values(|f: File| file_index(f) as u8) == words(ks2, 0, 8)[i],
        k == key_of(sc[a]@, tc[b]@),
    ensures
        !key_before(k, sc, tc, a, b),
{
    if key_before(k, sc, tc, a, b) {
        let (a2, b2) = choose|a2: int, b2: int|
            0 <= a2 < sc.len() && 0 <= b2 < tc.len() && (a2 < a || (a2 == a && b2 < b)) && k == #[trigger] key_of(sc[a2]@, tc[b2]@);
        lemma_combo_len(ks, sc[a2]@, a2);
        lemma_combo_len(ks2, tc[b2]@, b2);
        lemma_combo_len(ks, sc[a]@, a);
        lemma_combo_len(ks2, tc[b]@, b);
        lemma_key_of_injective(sc[a2]@, tc[b2]@, sc[a]@, tc[b]@);
        assert(file_indexes(sc[a2]@) == words(ks, 0, 8)[a2]);
        assert(file_indexes(tc[b2]@) == words(ks2, 0, 8)[b2]);
        assert(file_indexes(sc[a]@) == words(ks, 0, 8)[a]);
        assert(file_indexes(tc[b]@) == words(ks2, 0, 8)[b]);
        crate::words::lemma_words_distinct(ks, 0, 8);
        crate::words::lemma_words_distinct(ks2, 0, 8);
        if a2 < a {
            assert(words(ks, 0, 8)[a2] != words(ks, 0, 8)[a]);
        } else {
            assert(words(ks2, 0, 8)[b2] != words(ks2, 0, 8)[b]);
        }
    }
}

/// A key listed before `(a, b)` is listed before any later pair.
proof fn lemma_key_before_mono(k: Seq<u8>, sc: Seq<Vec<File>>, tc: Seq<Vec<File>>, a: int, b: int, a1: int, b1: int)
    requires
        key_before(k, sc, tc, a, b),
        a < a1 || (a == a1 && b <= b1),
    ensures
        key_before(k, sc, tc, a1, b1),
{
    let (a2, b2) = choose|a2: int, b2: int|
        0 <= a2 < sc.len() && 0 <= b2 < tc.len() && (a2 < a || (a2 == a && b2 < b)) && k == #[trigger] key_of(sc[a2]@, tc[b2]@);
    assert(0 <= a2 < sc.len() && 0 <= b2 < tc.len() && (a2 < a1 || (a2 == a1 && b2 < b1)) && k == key_of(sc[a2]@, tc[b2]@));
}

/// Configurations with pawn lists of the same lengths and the same key have
/// the same files.
proof fn lemma_key_of_injective(s1: Seq<File>, t1: Seq<File>, s2: Seq<File>, t2: Seq<File>)
    requires
        s1.len() == s2.len(),
        t1.len() == t2.len(),
        s1.len() + t1.len() <= 8,
        key_of(s1, t1) == key_of(s2, t2),
    ensures
        file_indexes(s1) == file_indexes(s2),
        file_indexes(t1) == file_indexes(t2),
{
    let k1 = key_of(s1, t1);
    let k2 = key_of(s2, t2);
    let n = s1.len() as int;
    assert forall|i: int| 0 <= i < n implies file_indexes(s1)[i] == file_indexes(s2)[i] by {
        assert(k1[i] == file_indexes(s1)[i]);
        assert(k2[i] == file_indexes(s2)[i]);
    }
    assert forall|i: int| 0 <= i < t1.len() implies file_indexes(t1)[i] == file_indexes(t2)[i] by {
        assert(k1[n + i] == (file_indexes(t1)[i] + 8) as u8);
        assert(k2[n + i] == (file_indexes(t2)[i] + 8) as u8);
        assert(file_index(t1[i]) < 8) by {
            match t1[i] {
                File::A => {}, File::B => {}, File::C => {}, File::D => {},
                File::E => {}, File::F => {}, File::G => {}, File::H => {},
            }
        }
        assert(file_index(t2[i]) < 8) by {
            match t2[i] {
                File::A => {}, File::B => {}, File::C => {}, File::D => {},
                File::E => {}, File::F => {}, File::G => {}, File::H => {},
            }
        }
    }
    assert(file_indexes(s1) =~= file_indexes(s2));
    assert(file_indexes(t1) =~= file_indexes(t2));
}

impl EgtFile {
    /// Sets up the file of an endgame (e.g. "KRP_KP") under `base_path`: one
    /// table per canonical assignment of files to the pawns, by increasing
    /// key, and frames that are all empty. Fails on an invalid name, on more
    /// than eight pawns, on a pawn configuration whose pieces cannot be
    /// indexed, and when the tables hold more indexes than 64 bits (or their
    /// frames more than `usize`) can count.
    #[verifier::rlimit(100)]
    #[verifier::spinoff_prover]
    pub fn new(base_path: &std::path::PathBuf, endgame: &str) -> (r: Result<EgtFile, EgtError>)
        ensures
            r matches Ok(file) ==> file.wf() && file.endgame@ == endgame@ && file.frame_size == DEFAULT_FRAME_SIZE
                && forall|f: int| 0 <= f < file.frames@.len() ==> #[trigger] file.frames@[f] is Empty,
            ({
                let b = endgame.spec_bytes();
                let u = underscore_pos(b);
                !(u < b.len() && valid_side(b.subrange(0, u)) && valid_side(b.subrange(u + 1, b.len() as int)))
                    ==> r is Err
            }),
            too_many_pawns(endgame.spec_bytes()) ==> r == Err::<EgtFile, EgtError>(EgtError::InvalidPieceConfig("too many pieces")),
            r matches Ok(file) ==> file_tables(file, endgame.spec_bytes()),
            r matches Ok(file) ==> forall|i: int| 0 <= i < file.index_range ==> #[trigger] file.stored(i).0 == 0 && file.in_memory_at(i),
            endgame_fits(endgame.spec_bytes()) ==> r is Ok || (r == Err::<EgtFile, EgtError>(EgtError::InvalidPieceConfig("table too large"))
                && (tables_too_large(endgame.spec_bytes()) || usize::MAX < u64::MAX)),
    {
        let (stm_pawns, sntm_pawns, other_pieces) = match parse_endgame_name(endgame) {
            Ok(t) => t,
            Err(e) => return Err(e),
        };
        proof {
            lemma_name_ascii(endgame.spec_bytes());
            let bytes = endgame.spec_bytes();
            let u = underscore_pos(bytes);
            lemma_side_entries_no_pawn(bytes.subrange(0, u), EgtSide::SideToMove);
            lemma_side_entries_no_pawn(bytes.subrange(u + 1, bytes.len() as int), EgtSide::SideNotToMove);
            let l1 = side_entries(bytes.subrange(0, u), EgtSide::SideToMove);
            let l2 = side_entries(bytes.subrange(u + 1, bytes.len() as int), EgtSide::SideNotToMove);
            assert forall|i: int| 0 <= i < other_pieces@.len() implies !((#[trigger] other_pieces@[i]).0 is Pawn) by {
                if i < l1.len() {
                    assert(other_pieces@[i] == l1[i]);
                } else {
                    assert(other_pieces@[i] == l2[i - l1.len()]);
                }
            }
        }
        let name = table_file_name(endgame);
        let path = join_path(base_path, name.as_str());
        if stm_pawns > 8 || sntm_pawns > 8 - stm_pawns {
            return Err(EgtError::InvalidPieceConfig("too many pieces"));
        }
        proof {
            if endgame_fits(endgame.spec_bytes()) {
                assert(configs_fit(stm_pawns as nat, sntm_pawns as nat, other_pieces@));
            }
            assert(!too_many_pawns(endgame.spec_bytes()));
        }
        let stm_combos = get_file_combinations(stm_pawns);
        let sntm_combos = get_file_combinations(sntm_pawns);
        let mut egts: Vec<Egt> = Vec::new();
        let mut keys: Vec<PawnKey> = Vec::new();
        let mut a: usize = 0;
        while a < stm_combos.len()
            invariant
                0 <= a <= stm_combos.len(),
                stm_pawns + sntm_pawns <= 8,
                stm_combos@.len() == words(stm_pawns as nat, 0, 8).len(),
                forall|i: int| 0 <= i < stm_combos@.len() ==> (#[trigger] stm_combos@[i])@.map_values(|f: File| file_index(f) as u8)
                    == words(stm_pawns as nat, 0, 8)[i],
                sntm_combos@.len() == words(sntm_pawns as nat, 0, 8).len(),
                forall|i: int| 0 <= i < sntm_combos@.len() ==> (#[trigger] sntm_combos@[i])@.map_values(|f: File| file_index(f) as u8)
                    == words(sntm_pawns as nat, 0, 8)[i],
                egts@.len() == keys@.len(),
                forall|e: int| 0 <= e < egts@.len() ==> (#[trigger] egts@[e]).wf(),
                forall|x: int, y: int| 0 <= x < y < keys@.len() ==> lex_lt((#[trigger] keys@[x]).files@, (#[trigger] keys@[y]).files@),
                forall|i: int| 0 <= i < other_pieces@.len() ==> !((#[trigger] other_pieces@[i]).0 is Pawn),
                forall|e: int| 0 <= e < egts@.len() ==> #[trigger] table_of_key(egts@[e], keys@[e]),
                endgame_fits(endgame.spec_bytes()) ==> configs_fit(stm_pawns as nat, sntm_pawns as nat, other_pieces@),
                !too_many_pawns(endgame.spec_bytes()),
                forall|x: int| 0 <= x < keys@.len() ==> #[trigger] key_before(keys@[x].files@, stm_combos@, sntm_combos@, a as int, 0),
                forall|e: int| 0 <= e < egts@.len() ==> #[trigger] table_of_config(egts@[e], keys@[e], stm_pawns as nat, sntm_pawns as nat, other_pieces@),
                forall|a2: int, b2: int|
                    0 <= a2 < stm_combos@.len() && 0 <= b2 < sntm_combos@.len() && a2 < a && canonical(stm_combos@[a2]@, sntm_combos@[b2]@)
                        ==> key_listed(keys@, #[trigger] key_of(stm_combos@[a2]@, sntm_combos@[b2]@)),
            decreases stm_combos.len() - a,
        {
            let mut b: usize = 0;
            while b < sntm_combos.len()
                invariant
                    0 <= a < stm_combos.len(),
                    0 <= b <= sntm_combos.len(),
                    stm_pawns + sntm_pawns <= 8,
                    stm_combos@.len() == words(stm_pawns as nat, 0, 8).len(),
                    forall|i: int| 0 <= i < stm_combos@.len() ==> (#[trigger] stm_combos@[i])@.map_values(|f: File| file_index(f) as u8)
                        == words(stm_pawns as nat, 0, 8)[i],
                    sntm_combos@.len() == words(sntm_pawns as nat, 0, 8).len(),
                    forall|i: int| 0 <= i < sntm_combos@.len() ==> (#[trigger] sntm_combos@[i])@.map_values(|f: File| file_index(f) as u8)
                        == words(sntm_pawns as nat, 0, 8)[i],
                    egts@.len() == keys@.len(),
                    forall|e: int| 0 <= e < egts@.len() ==> (#[trigger] egts@[e]).wf(),
                    forall|x: int, y: int| 0 <= x < y < keys@.len() ==> lex_lt((#[trigger] keys@[x]).files@, (#[trigger] keys@[y]).files@),
                    forall|i: int| 0 <= i < other_pieces@.len() ==> !((#[trigger] other_pieces@[i]).0 is Pawn),
                    forall|e: int| 0 <= e < egts@.len() ==> #[trigger] table_of_key(egts@[e], keys@[e]),
                    endgame_fits(endgame.spec_bytes()) ==> configs_fit(stm_pawns as nat, sntm_pawns as nat, other_pieces@),
                    !too_many_pawns(endgame.spec_bytes()),
                    forall|e: int| 0 <= e < egts@.len() ==> #[trigger] table_of_config(egts@[e], keys@[e], stm_pawns as nat, sntm_pawns as nat, other_pieces@),
                    forall|a2: int, b2: int|
                        0 <= a2 < stm_combos@.len() && 0 <= b2 < sntm_combos@.len() && (a2 < a || (a2 == a && b2 < b)) && canonical(
                            stm_combos@[a2]@,
                            sntm_combos@[b2]@,
                        ) ==> key_listed(keys@, #[trigger] key_of(stm_combos@[a2]@, sntm_combos@[b2]@)),
                    forall|x: int| 0 <= x < keys@.len() ==> #[trigger] key_before(keys@[x].files@, stm_combos@, sntm_combos@, a as int, b as int),
                decreases sntm_combos.len() - b,
            {
                let stm_files = &stm_combos[a];
                let sntm_files = &sntm_combos[b];
                if is_canonical(stm_files, sntm_files) {
                    let pieces = build_pieces(stm_files, sntm_files, &other_pieces);
                    let ghost built = pieces@;
                    let ghost fits = endgame_fits(endgame.spec_bytes());
                    let ghost sw = choose|s: Seq<PieceEntry>|
                        #[trigger] s.to_multiset() == built.to_multiset() && entries_sorted(s) && listing_ok(s) && files_fit(listed_elements(s))
                            && ep_fit(s);
                    proof {
                        if fits {
                            let x = stm_files@;
                            let y = sntm_files@;
                            assert(file_indexes(x) == words(stm_pawns as nat, 0, 8)[a as int]);
                            assert(file_indexes(y) == words(sntm_pawns as nat, 0, 8)[b as int]);
                            assert(words(stm_pawns as nat, 0, 8).contains(file_indexes(x)));
                            assert(words(sntm_pawns as nat, 0, 8).contains(file_indexes(y)));
                            assert(built == config_listing(x, y, other_pieces@));
                            assert(listing_fits(config_listing(x, y, other_pieces@)));
                            assert(sw.to_multiset() == built.to_multiset());
                        }
                    }
                    let egt = match Egt::from_pieces(pieces) {
                        Ok(t) => t,
                        Err(e) => {
                            proof {
                                if fits {
                                    assert(sw.to_multiset() == built.to_multiset());
                                }
                            }
                            return Err(e);
                        },
                    };
                    proof {
                        lemma_combo_len(stm_pawns as nat, stm_files@, a as int);
                        lemma_combo_len(sntm_pawns as nat, sntm_files@, b as int);
                    }
                    let key = PawnKey::new(stm_files, sntm_files);
                    proof {
                        lemma_built_table(egt, key, stm_files@, sntm_files@, other_pieces@, built);
                        assert(table_of_key(egt, key));
                    }
                    // Keep the tables ordered by key.
                    let mut pos: usize = 0;
                    while pos < keys.len() && key_lt(&keys[pos], &key)
                        invariant
                            0 <= pos <= keys@.len(),
                            forall|x: int| 0 <= x < pos ==> lex_lt((#[trigger] keys@[x]).files@, key.files@),
                        decreases keys.len() - pos,
                    {
                        pos += 1;
                    }
                    proof {
                        if pos < keys@.len() && keys@[pos as int].files@ == key.files@ {
                            lemma_key_new(stm_combos@, sntm_combos@, stm_pawns as nat, sntm_pawns as nat, a as int, b as int, key.files@);
                        }
                    }
                    if pos < keys.len() && key_eq(&keys[pos], &key) {
                        return Err(EgtError::Internal("repeated table"));
                    }
                    proof {
                        if pos < keys@.len() {
                            crate::names::lemma_lex_total(keys@[pos as int].files@, key.files@);
                            assert(lex_lt(key.files@, keys@[pos as int].files@));
                            assert forall|y: int| pos <= y < keys@.len() implies lex_lt(key.files@, (#[trigger] keys@[y]).files@) by {
                                if y > pos {
                                    crate::names::lemma_lex_transitive(key.files@, keys@[pos as int].files@, keys@[y].files@);
                                }
                            }
                        }
                    }
                    let ghost old_keys = keys@;
                    let ghost old_egts = egts@;
                    keys.insert(pos, key);
                    egts.insert(pos, egt);
                    proof {
                        assert forall|x: int, y: int| 0 <= x < y < keys@.len() implies lex_lt((#[trigger] keys@[x]).files@, (#[trigger] keys@[y]).files@) by {
                            if x < pos && y < pos {
                                assert(keys@[x] == old_keys[x] && keys@[y] == old_keys[y]);
                            } else if x < pos && y == pos {
                            } else if x < pos {
                                assert(keys@[x] == old_keys[x] && keys@[y] == old_keys[y - 1]);
                                crate::names::lemma_lex_transitive(old_keys[x].files@, key.files@, old_keys[y - 1].files@);
                            } else if x == pos {
                                assert(keys@[y] == old_keys[y - 1]);
                            } else {
                                assert(keys@[x] == old_keys[x - 1] && keys@[y] == old_keys[y - 1]);
                            }
                        }
                        assert forall|e: int| 0 <= e < egts@.len() implies (#[trigger] egts@[e]).wf() by {
                            if e < pos {
                                assert(egts@[e] == old_egts[e]);
                            } else if e > pos {
                                assert(egts@[e] == old_egts[e - 1]);
                            }
                        }
                        assert forall|e: int| 0 <= e < egts@.len() implies #[trigger] table_of_key(egts@[e], keys@[e]) by {
                            if e < pos {
                                assert(egts@[e] == old_egts[e] && keys@[e] == old_keys[e]);
                            } else if e > pos {
                                assert(egts@[e] == old_egts[e - 1] && keys@[e] == old_keys[e - 1]);
                            }
                        }
                        assert forall|x: int| 0 <= x < keys@.len() implies #[trigger] key_before(
                            keys@[x].files@,
                            stm_combos@,
                            sntm_combos@,
                            a as int,
                            b + 1,
                        ) by {
                            if x < pos {
                                assert(keys@[x] == old_keys[x]);
                                lemma_key_before_mono(old_keys[x].files@, stm_combos@, sntm_combos@, a as int, b as int, a as int, b + 1);
                            } else if x > pos {
                                assert(keys@[x] == old_keys[x - 1]);
                                lemma_key_before_mono(old_keys[x - 1].files@, stm_combos@, sntm_combos@, a as int, b as int, a as int, b + 1);
                            } else {
                                assert(keys@[x].files@ == key_of(stm_combos@[a as int]@, sntm_combos@[b as int]@));
                            }
                        }
                        lemma_keys_insert(old_keys, keys@, pos as int, key);
                        assert(key.files@ == key_of(stm_combos@[a as int]@, sntm_combos@[b as int]@));
                        assert(table_of_config(egt, key, stm_pawns as nat, sntm_pawns as nat, other_pieces@)) by {
                            let x = stm_files@;
                            let y = sntm_files@;
                            assert(file_indexes(x) == words(stm_pawns as nat, 0, 8)[a as int]);
                            assert(file_indexes(y) == words(sntm_pawns as nat, 0, 8)[b as int]);
                            assert(words(stm_pawns as nat, 0, 8).contains(file_indexes(x)));
                            assert(words(sntm_pawns as nat, 0, 8).contains(file_indexes(y)));
                            assert(built == config_listing(x, y, other_pieces@));
                            assert(key.files@ == key_of(x, y));
                        }
                        assert forall|e: int| 0 <= e < egts@.len() implies #[trigger] table_of_config(
                            egts@[e],
                            keys@[e],
                            stm_pawns as nat,
                            sntm_pawns as nat,
                            other_pieces@,
                        ) by {
                            if e < pos {
                                assert(egts@[e] == old_egts[e] && keys@[e] == old_keys[e]);
                            } else if e > pos {
                                assert(egts@[e] == old_egts[e - 1] && keys@[e] == old_keys[e - 1]);
                            }
                        }
                        assert forall|a2: int, b2: int|
                            0 <= a2 < stm_combos@.len() && 0 <= b2 < sntm_combos@.len() && (a2 < a || (a2 == a && b2 < b + 1)) && canonical(
                                stm_combos@[a2]@,
                                sntm_combos@[b2]@,
                            ) implies key_listed(keys@, #[trigger] key_of(stm_combos@[a2]@, sntm_combos@[b2]@)) by {
                            if !(a2 == a && b2 == b) {
                                assert(key_listed(old_keys, key_of(stm_combos@[a2]@, sntm_combos@[b2]@)));
                            }
                        }
                    }
                } else {
                    proof {
                        assert forall|x: int| 0 <= x < keys@.len() implies #[trigger] key_before(
                            keys@[x].files@,
                            stm_combos@,
                            sntm_combos@,
                            a as int,
                            b + 1,
                        ) by {
                            lemma_key_before_mono(keys@[x].files@, stm_combos@, sntm_combos@, a as int, b as int, a as int, b + 1);
                        }
                        assert forall|a2: int, b2: int|
                            0 <= a2 < stm_combos@.len() && 0 <= b2 < sntm_combos@.len() && (a2 < a || (a2 == a && b2 < b + 1)) && canonical(
                                stm_combos@[a2]@,
                                sntm_combos@[b2]@,
                            ) implies key_listed(keys@, #[trigger] key_of(stm_combos@[a2]@, sntm_combos@[b2]@)) by {
                            assert(!(a2 == a && b2 == b));
                        }
                    }
                }
                b += 1;
            }
            proof {
                assert forall|x: int| 0 <= x < keys@.len() implies #[trigger] key_before(keys@[x].files@, stm_combos@, sntm_combos@, a + 1, 0) by {
                    lemma_key_before_mono(keys@[x].files@, stm_combos@, sntm_combos@, a as int, b as int, a + 1, 0);
                }
                assert forall|a2: int, b2: int|
                    0 <= a2 < stm_combos@.len() && 0 <= b2 < sntm_combos@.len() && a2 < a + 1 && canonical(stm_combos@[a2]@, sntm_combos@[b2]@)
                        implies key_listed(keys@, #[trigger] key_of(stm_combos@[a2]@, sntm_combos@[b2]@)) by {
                    assert(a2 < a || (a2 == a && b2 < b));
                }
            }
            a += 1;
        }
        proof {
            lemma_all_configs_listed(stm_combos@, sntm_combos@, stm_pawns as nat, sntm_pawns as nat, keys@);
            assert(tables_for(endgame.spec_bytes(), egts@, keys@));
        }
        // Total number of indexes.
        let mut index_range: u64 = 0;
        let mut e: usize = 0;
        while e < egts.len()
            invariant
                0 <= e <= egts@.len(),
                index_range == ranges_sum(egts@, e as int),
                !too_many_pawns(endgame.spec_bytes()),
                tables_for(endgame.spec_bytes(), egts@, keys@),
            decreases egts.len() - e,
        {
            index_range = match index_range.checked_add(egts[e].indexer.index_range) {
                Some(v) => v,
                None => {
                    proof {
                        lemma_ranges_mono(egts@, e as int + 1, egts@.len() as int);
                        assert(tables_for(endgame.spec_bytes(), egts@, keys@) && ranges_sum(egts@, egts@.len() as int) > u64::MAX);
                    }
                    return Err(EgtError::InvalidPieceConfig("table too large"));
                },
            };
            e += 1;
        }
        let frame_size = DEFAULT_FRAME_SIZE;
        let fs = frame_size as u64;
        let num_frames = index_range / fs + if index_range % fs == 0 { 0 } else { 1 };
        if num_frames > usize::MAX as u64 {
            return Err(EgtError::InvalidPieceConfig("table too large"));
        }
        let num_frames = num_frames as usize;
        let mut frames: Vec<FrameState> = Vec::new();
        let mut k: usize = 0;
        while k < num_frames
            invariant
                0 <= k <= num_frames,
                frames@.len() == k,
                forall|g: int| 0 <= g < k ==> #[trigger] frames@[g] is Empty,
            decreases num_frames - k,
        {
            frames.push(FrameState::Empty);
            k += 1;
        }
        let ghost contents = Seq::new(num_frames as nat, |g: int| invalid_frame(frame_size as nat));
        proof {
            assert(num_frames * fs >= index_range) by (nonlinear_arith)
                requires
                    fs > 0,
                    num_frames == index_range / fs + (if index_range % fs == 0 { 0int } else { 1int }),
            ;
            assert forall|g: int| 0 <= g < frames@.len() implies frame_holds(#[trigger] frames@[g], contents[g], frame_size as nat) by {
                assert(frames@[g] is Empty);
            }
        }
        let file = EgtFile {
            endgame: endgame.to_owned(),
            path,
            egts,
            egt_keys: keys,
            frames,
            frame_size,
            index_range,
            contents: Ghost(contents),
        };
        proof {
            assert forall|i: int| 0 <= i < file.index_range implies #[trigger] file.stored(i).0 == 0 && file.in_memory_at(i) by {
                file.lemma_frame_of(i);
                assert(file.frames@[file.frame_of(i)] is Empty);
            }
        }
        Ok(file)
    }
}

proof fn lemma_combo_len(k: nat, files: Seq<File>, i: int)
    requires
        0 <= i < words(k, 0, 8).len(),
        files.map_values(|f: File| file_index(f) as u8) == words(k, 0, 8)[i],
    ensures
        files.len() == k,
        files_nondecreasing(files),
{
    let w = words(k, 0, 8)[i];
    crate::words::lemma_words_sound(k, 0, 8, w);
    assert(files.len() == files.map_values(|f: File| file_index(f) as u8).len());
    assert forall|x: int, y: int| 0 <= x <= y < files.len() implies file_index(#[trigger] files[x]) <= file_index(#[trigger] files[y]) by {
        assert(w[x] == file_index(files[x]) as u8);
        assert(w[y] == file_index(files[y]) as u8);
        assert(w[x] <= w[y]);
    }
}

/// The entries of a side of an endgame name are not pawns.
proof fn lemma_side_entries_no_pawn(b: Seq<u8>, side: EgtSide)
    ensures
        forall|i: int| 0 <= i < side_entries(b, side).len() ==> !((#[trigger] side_entries(b, side)[i]).0 is Pawn),
{
    let s = side_entries(b, side);
    assert forall|i: int| 0 <= i < s.len() implies !((#[trigger] s[i]).0 is Pawn) by {
        let k = crate::tables::role_entry(b, side, EgtRole::King, 75u8);
        let q = crate::tables::role_entry(b, side, EgtRole::Queen, 81u8);
        let r = crate::tables::role_entry(b, side, EgtRole::Rook, 82u8);
        let bi = crate::tables::role_entry(b, side, EgtRole::Bishop, 66u8);
        let n = crate::tables::role_entry(b, side, EgtRole::Knight, 78u8);
        assert(s == k + q + r + bi + n);
        let j = i;
        if j < k.len() {
            assert(s[i] == k[j]);
        } else if j < k.len() + q.len() {
            assert(s[i] == q[j - k.len()]);
        } else if j < k.len() + q.len() + r.len() {
            assert(s[i] == r[j - k.len() - q.len()]);
        } else if j < k.len() + q.len() + r.len() + bi.len() {
            assert(s[i] == bi[j - k.len() - q.len() - r.len()]);
        } else {
            assert(s[i] == n[j - k.len() - q.len() - r.len() - bi.len()]);
        }
    }
}

/// Number of pawns of `color` on file `f` (squares below `64`, counted up
/// to rank `r`).
pub open spec fn pawns_on_file(squares: Seq<Option<Piece>>, color: Color, f: int, r: int) -> nat
    decreases r,
{
    if r <= 0 {
        0
    } else {
        pawns_on_file(squares, color, f, r - 1) + (if squares[(r - 1) * 8 + f] == Some(Piece { color, role: Role::Pawn }) {
            1nat
        } else {
            0nat
        })
    }
}

/// The files of the pawns of `color`, listed by increasing file, for the
/// files below `g`.
pub open spec fn pawn_files_upto(squares: Seq<Option<Piece>>, color: Color, g: nat) -> Seq<File>
    decreases g,
{
    if g == 0 {
        Seq::empty()
    } else {
        pawn_files_upto(squares, color, (g - 1) as nat) + crate::tables::repeat_file(
            crate::egt::file_of((g - 1) as nat),
            pawns_on_file(squares, color, g - 1, 8),
        )
    }
}

/// The files of the pawns of `color`, by increasing file.
fn pawn_files_of(position: &BoardPosition, color: Color) -> (r: Vec<File>)
    requires
        position.wf(),
    ensures
        r@ == pawn_files_upto(position.squares@, color, 8),
        r@.len() <= 64,
{
    let mut out: Vec<File> = Vec::new();
    let pawn = Piece { color, role: Role::Pawn };
    let mut g: usize = 0;
    while g < 8
        invariant
            0 <= g <= 8,
            position.wf(),
            pawn == (Piece { color, role: Role::Pawn }),
            out@ == pawn_files_upto(position.squares@, color, g as nat),
            out@.len() <= 8 * g,
        decreases 8 - g,
    {
        let x = File::new(g);
        proof {
            assert(crate::egt::file_of(g as nat) == x);
        }
        let ghost start = out@;
        let mut r: usize = 0;
        let mut count: usize = 0;
        while r < 8
            invariant
                0 <= r <= 8,
                g < 8,
                position.wf(),
                pawn == (Piece { color, role: Role::Pawn }),
                out@ == start + crate::tables::repeat_file(x, count as nat),
                count == pawns_on_file(position.squares@, color, g as int, r as int),
                count <= r,
                start.len() <= 8 * g,
                out@.len() == start.len() + count,
            decreases 8 - r,
        {
            match position.squares[r * 8 + g] {
                Some(p) => {
                    if p.color == color && p.role == Role::Pawn {
                        out.push(x);
                        count += 1;
                        assert(out@ =~= start + crate::tables::repeat_file(x, count as nat));
                    }
                },
                None => {},
            }
            r += 1;
        }
        g += 1;
    }
    out
}

impl EgtFile {
    /// The table with the given key, if the file has one.
    pub fn egt_index(&self, key: &PawnKey) -> (r: Option<usize>)
        requires
            self.wf(),
        ensures
            r matches Some(e) ==> e < self.egt_keys@.len() && self.egt_keys@[e as int].files@ == key.files@,
            r is None ==> forall|e: int| 0 <= e < self.egt_keys@.len() ==> (#[trigger] self.egt_keys@[e]).files@ != key.files@,
    {
        let mut e: usize = 0;
        while e < self.egt_keys.len()
            invariant
                0 <= e <= self.egt_keys@.len(),
                forall|k: int| 0 <= k < e ==> (#[trigger] self.egt_keys@[k]).files@ != key.files@,
            decreases self.egt_keys.len() - e,
        {
            if key_eq(&self.egt_keys[e], key) {
                return Some(e);
            }
            e += 1;
        }
        None
    }

    /// The global index of a local index of table `egt_idx`: the indexes of
    /// the tables before it come first.
    pub fn get_global_index(&self, egt_idx: usize, local_index: u64) -> (r: u64)
        requires
            self.wf(),
            egt_idx <= self.egts@.len(),
            ranges_sum(self.egts@, egt_idx as int) + local_index <= u64::MAX,
        ensures
            r == ranges_sum(self.egts@, egt_idx as int) + local_index,
            egt_idx < self.egts@.len() && local_index < self.egts@[egt_idx as int].indexer.index_range ==> r < self.index_range,
    {
        proof {
            if egt_idx < self.egts@.len() {
                lemma_ranges_mono(self.egts@, egt_idx as int + 1, self.egts@.len() as int);
            }
        }
        let mut offset: u64 = 0;
        let mut e: usize = 0;
        while e < egt_idx
            invariant
                0 <= e <= egt_idx <= self.egts@.len(),
                offset == ranges_sum(self.egts@, e as int),
                ranges_sum(self.egts@, egt_idx as int) <= u64::MAX,
            decreases egt_idx - e,
        {
            proof {
                lemma_ranges_mono(self.egts@, e as int + 1, egt_idx as int);
            }
            offset = offset + self.egts[e].indexer.index_range;
            e += 1;
        }
        offset + local_index
    }

    /// `p` is the position that the global index `index` stands for: the
    /// table whose range holds `index` decodes its local index as `p`.
    pub open spec fn decodes_global(&self, index: u64, p: BoardPosition) -> bool {
        exists|e: int|
            0 <= e < self.egts@.len() && ranges_sum(self.egts@, e) <= index && index - ranges_sum(self.egts@, e)
                < self.egts@[e].indexer.index_range && #[trigger] self.egts@[e].indexer.decodes(
                (index - ranges_sum(self.egts@, e)) as u64,
                p,
            )
    }

    /// A global index decodes through the table whose range holds it.
    proof fn lemma_decoded_table(&self, index: u64, p: BoardPosition, e: int)
        requires
            0 <= e < self.egts@.len(),
            ranges_sum(self.egts@, e) <= index,
            index - ranges_sum(self.egts@, e) < self.egts@[e].indexer.index_range,
            self.decodes_global(index, p),
        ensures
            self.egts@[e].indexer.decodes((index - ranges_sum(self.egts@, e)) as u64, p),
    {
        let e2 = choose|e2: int|
            0 <= e2 < self.egts@.len() && ranges_sum(self.egts@, e2) <= index && index - ranges_sum(self.egts@, e2)
                < self.egts@[e2].indexer.index_range && #[trigger] self.egts@[e2].indexer.decodes(
                (index - ranges_sum(self.egts@, e2)) as u64,
                p,
            );
        if e2 < e {
            lemma_ranges_mono(self.egts@, e2 + 1, e);
        } else if e2 > e {
            lemma_ranges_mono(self.egts@, e + 1, e2);
        }
    }

    /// Two tables of the file with the same key are the same table.
    proof fn lemma_key_unique(&self, e1: int, e2: int)
        requires
            self.wf(),
            0 <= e1 < self.egt_keys@.len(),
            0 <= e2 < self.egt_keys@.len(),
            self.egt_keys@[e1].files@ == self.egt_keys@[e2].files@,
        ensures
            e1 == e2,
    {
        crate::names::lemma_lex_irreflexive(self.egt_keys@[e1].files@);
        if e1 < e2 {
            assert(lex_lt(self.egt_keys@[e1].files@, self.egt_keys@[e2].files@));
        } else if e2 < e1 {
            assert(lex_lt(self.egt_keys@[e2].files@, self.egt_keys@[e1].files@));
        }
    }

    /// A position that a global index stands for has the pawn files of the
    /// table of that index, under its key.
    #[verifier::rlimit(40)]
    #[verifier::spinoff_prover]
    proof fn lemma_decoded_files(&self, i: u64, p: BoardPosition) -> (e: int)
        requires
            self.wf(),
            self.decodes_global(i, p),
        ensures
            p.squares@.len() == 64,
            p.ep_square matches Some(s) ==> s < 64,
            files_nondecreasing(pawn_files_upto(p.squares@, p.turn, 8)),
            files_nondecreasing(pawn_files_upto(p.squares@, opposite(p.turn), 8)),
            0 <= e < self.egts@.len(),
            ranges_sum(self.egts@, e) <= i,
            i - ranges_sum(self.egts@, e) < self.egts@[e].indexer.index_range,
            self.egts@[e].indexer.decodes((i - ranges_sum(self.egts@, e)) as u64, p),
            canonical(pawn_files_upto(p.squares@, p.turn, 8), pawn_files_upto(p.squares@, opposite(p.turn), 8)),
            pawn_files_upto(p.squares@, p.turn, 8).len() + pawn_files_upto(p.squares@, opposite(p.turn), 8).len() <= 8,
            self.egt_keys@[e].files@ == key_of(pawn_files_upto(p.squares@, p.turn, 8), pawn_files_upto(p.squares@, opposite(p.turn), 8)),
    {
        let e = choose|e: int|
            0 <= e < self.egts@.len() && ranges_sum(self.egts@, e) <= i && i - ranges_sum(self.egts@, e)
                < self.egts@[e].indexer.index_range && #[trigger] self.egts@[e].indexer.decodes((i - ranges_sum(self.egts@, e)) as u64, p);
        assert(table_of_key(self.egts@[e], self.egt_keys@[e]));
        self.egts@[e].indexer.lemma_decodes_board((i - ranges_sum(self.egts@, e)) as u64, p);
        let (stm, sntm): (Seq<File>, Seq<File>) = choose|stm: Seq<File>, sntm: Seq<File>| #[trigger] table_config(
            self.egts@[e],
            self.egt_keys@[e],
            stm,
            sntm,
        );
        lemma_decoded_config(self.egts@[e], self.egt_keys@[e], stm, sntm, (i - ranges_sum(self.egts@, e)) as u64, p);
        e
    }

    /// The mirror image of a position that a global index stands for, when
    /// its pawn files are not their own reflection, has the reflected pawn
    /// files, which are not canonical, and mirroring it back gives the
    /// position.
    #[verifier::rlimit(40)]
    #[verifier::spinoff_prover]
    proof fn lemma_mirrored_files(&self, i: u64, q: BoardPosition, p: BoardPosition)
        requires
            self.wf(),
            self.decodes_global(i, q),
            mirror_of(p, q),
            !symmetric_pawns(q),
        ensures
            pawn_files_upto(p.squares@, p.turn, 8) == reflected(pawn_files_upto(q.squares@, q.turn, 8)),
            pawn_files_upto(p.squares@, opposite(p.turn), 8) == reflected(pawn_files_upto(q.squares@, opposite(q.turn), 8)),
            !canonical(pawn_files_upto(p.squares@, p.turn, 8), pawn_files_upto(p.squares@, opposite(p.turn), 8)),
            reflected(pawn_files_upto(p.squares@, p.turn, 8)) == pawn_files_upto(q.squares@, q.turn, 8),
            reflected(pawn_files_upto(p.squares@, opposite(p.turn), 8)) == pawn_files_upto(q.squares@, opposite(q.turn), 8),
            p.squares@.len() == 64 ==> mirrored(p.squares@) == q.squares@,
            (match p.ep_square {
                Some(s) => Some(mirror_square(s)),
                None => None,
            }) == q.ep_square,
    {
        let e = self.lemma_decoded_files(i, q);
        let sq = q.squares@;
        let s1 = pawn_files_upto(sq, q.turn, 8);
        let s2 = pawn_files_upto(sq, opposite(q.turn), 8);
        crate::pawn_files::lemma_mirrored_pawn_files(sq, q.turn);
        crate::pawn_files::lemma_mirrored_pawn_files(sq, opposite(q.turn));
        crate::pawn_files::lemma_reflection_not_canonical(s1, s2);
        crate::pawn_files::lemma_reflected_twice(s1);
        crate::pawn_files::lemma_reflected_twice(s2);
        crate::board::lemma_mirror_involution(sq);
        if q.ep_square is Some {
            let s = q.ep_square->0;
            assert(mirror_square(mirror_square(s)) == s);
        }
    }

    /// Maps a position to its global index: the pawn files are canonicalized
    /// (mirroring the board when needed), the table of those files encodes
    /// the position. Fails when the position is not one of this file.
    #[verifier::rlimit(50)]
    #[verifier::spinoff_prover]
    pub fn map_position_to_index(&mut self, position: &BoardPosition) -> (r: Result<u64, EgtError>)
        requires
            old(self).wf(),
            position.wf(),
        ensures
            final(self).wf(),
            final(self).same_data(old(self)),
            final(self).frames@ == old(self).frames@,
            r matches Ok(i) ==> i < old(self).index_range,
            forall|i: u64| #[trigger] old(self).decodes_global(i, *position) ==> r == Ok::<u64, EgtError>(i),
            forall|i: u64, q: BoardPosition| #[trigger] old(self).decodes_global(i, q) && mirror_of(*position, q) && !symmetric_pawns(q)
                ==> r == Ok::<u64, EgtError>(i),
    {
        let ghost pos = *position;
        let ghost mdg = exists|i: u64, q: BoardPosition| #[trigger] self.decodes_global(i, q) && mirror_of(pos, q) && !symmetric_pawns(q);
        let ghost (mi, mq): (u64, BoardPosition) = choose|i: u64, q: BoardPosition| #[trigger] self.decodes_global(i, q) && mirror_of(pos, q)
            && !symmetric_pawns(q);
        let ghost dg = exists|i: u64| #[trigger] self.decodes_global(i, pos);
        let ghost gi: u64 = choose|i: u64| #[trigger] self.decodes_global(i, pos);
        let ghost mut ge: int = 0;
        proof {
            if dg {
                ge = self.lemma_decoded_files(gi, pos);
            }
            if mdg {
                ge = self.lemma_decoded_files(mi, mq);
                self.lemma_mirrored_files(mi, mq, pos);
            }
        }
        let stm_color = position.turn;
        let sntm_color = stm_color.other();
        let stm_files = pawn_files_of(position, stm_color);
        let sntm_files = pawn_files_of(position, sntm_color);
        let canonical = is_canonical(&stm_files, &sntm_files);
        let (target_stm, target_sntm) = if canonical {
            (stm_files, sntm_files)
        } else {
            (reflect_files(&stm_files), reflect_files(&sntm_files))
        };
        if target_stm.len() > 8 || target_sntm.len() > 8 - target_stm.len() {
            return Err(EgtError::PositionNotInTable { table: self.endgame.clone() });
        }
        let key = PawnKey::new(&target_stm, &target_sntm);
        let egt_idx = match self.egt_index(&key) {
            Some(e) => e,
            None => {
                proof {
                    if dg || mdg {
                        assert(self.egt_keys@[ge].files@ != key.files@);
                    }
                }
                return Err(EgtError::PositionNotInTable { table: self.endgame.clone() });
            },
        };
        proof {
            if dg || mdg {
                self.lemma_key_unique(egt_idx as int, ge);
            }
        }
        let ghost before = *self;
        let ghost mut target = pos;
        let local = if canonical {
            let egt = &mut self.egts[egt_idx];
            egt.position_to_index(position)
        } else {
            let mirrored = mirror_horizontally(position);
            proof {
                target = mirrored;
            }
            let egt = &mut self.egts[egt_idx];
            egt.position_to_index(&mirrored)
        };
        proof {
            assert forall|e: int| 0 <= e < self.egts@.len() implies (#[trigger] self.egts@[e]).wf() by {
                if e != egt_idx {
                    assert(self.egts@[e] == before.egts@[e]);
                }
            }
            assert forall|e: int| 0 <= e < self.egts@.len() implies #[trigger] table_of_key(self.egts@[e], self.egt_keys@[e]) by {
                if e != egt_idx {
                    assert(self.egts@[e] == before.egts@[e]);
                } else {
                    assert(table_of_key(before.egts@[e], before.egt_keys@[e]));
                    let (stm, sntm): (Seq<File>, Seq<File>) = choose|stm: Seq<File>, sntm: Seq<File>| #[trigger] table_config(
                        before.egts@[e],
                        before.egt_keys@[e],
                        stm,
                        sntm,
                    );
                    assert(table_config(self.egts@[e], self.egt_keys@[e], stm, sntm));
                }
            }
            lemma_ranges_same(self.egts@, before.egts@, self.egts@.len() as int);
        }
        let local = match local {
            Some(i) => i,
            None => {
                proof {
                    if mdg {
                        before.egts@[ge].indexer.lemma_decodes_same_position((mi - ranges_sum(before.egts@, ge)) as u64, mq, target);
                    }
                }
                return Err(EgtError::PositionNotInTable { table: self.endgame.clone() });
            },
        };
        proof {
            lemma_ranges_same(self.egts@, before.egts@, egt_idx as int);
            lemma_ranges_mono(self.egts@, egt_idx as int + 1, self.egts@.len() as int);
        }
        let global = self.get_global_index(egt_idx, local);
        proof {
            assert forall|i: u64| #[trigger] before.decodes_global(i, pos) implies global == i by {
                let e = before.lemma_decoded_files(i, pos);
                assert(canonical);
                assert(key.files@ == before.egt_keys@[e].files@);
                before.lemma_key_unique(egt_idx as int, e);
                assert(before.egts@[egt_idx as int].indexer.decodes((i - ranges_sum(before.egts@, e)) as u64, pos));
                assert(local == (i - ranges_sum(before.egts@, e)) as u64);
            }
            assert forall|i: u64, q: BoardPosition| #[trigger] before.decodes_global(i, q) && mirror_of(pos, q) && !symmetric_pawns(q)
                implies global == i by {
                let e = before.lemma_decoded_files(i, q);
                before.lemma_mirrored_files(i, q, pos);
                assert(!canonical);
                assert(key.files@ == before.egt_keys@[e].files@);
                before.lemma_key_unique(egt_idx as int, e);
                let j = (i - ranges_sum(before.egts@, e)) as u64;
                before.egts@[e].indexer.lemma_decodes_same_position(j, q, target);
                assert(local == j);
            }
        }
        Ok(global)
    }

    /// Probes the stored outcome of a position.
    pub fn probe(&mut self, position: &BoardPosition) -> (r: Result<MaybeDtcOutcome, EgtError>)
        requires
            old(self).wf(),
            position.wf(),
        ensures
            final(self).wf(),
            final(self).same_data(old(self)),
            r matches Ok(v) ==> exists|i: int| 0 <= i < old(self).index_range && v == #[trigger] old(self).stored(i),
            forall|i: u64| #[trigger] old(self).decodes_global(i, *position) ==> (r matches Ok(v) ==> v == old(self).stored(i as int))
                && (old(self).in_memory_at(i as int) ==> r is Ok),
            forall|i: u64, q: BoardPosition| #[trigger] old(self).decodes_global(i, q) && mirror_of(*position, q) && !symmetric_pawns(q)
                ==> (r matches Ok(v) ==> v == old(self).stored(i as int)) && (old(self).in_memory_at(i as int) ==> r is Ok),
    {
        let index = match self.map_position_to_index(position) {
            Ok(i) => i,
            Err(e) => return Err(e),
        };
        let r = self.read_from_index(index);
        proof {
            if r is Ok {
                assert(old(self).stored(index as int) == self.stored(index as int));
            }
        }
        r
    }
}

impl EgtFile {
    /// Decodes a global index as a position with the given side to move;
    /// None when the index is out of range or stands for no legal position.
    pub fn index_to_position(&mut self, index: u64, side_to_move: Color) -> (r: Option<BoardPosition>)
        requires
            old(self).wf(),
        ensures
            final(self).wf(),
            final(self).same_data(old(self)),
            index >= old(self).index_range ==> r is None,
            r matches Some(p) ==> p.wf() && p.turn == side_to_move && crate::board::fen_legal_ep(
                crate::board::fen_of(p.squares@, p.turn, p.ep_square),
            ) == Some(p.ep_square),
            r matches Some(p) ==> old(self).decodes_global(index, p) && final(self).decodes_global(index, p),
            (exists|p: BoardPosition| #[trigger] old(self).decodes_global(index, p) && p.turn == side_to_move) ==> r is Some,
    {
        if index >= self.index_range {
            proof {
                if exists|p: BoardPosition| #[trigger] self.decodes_global(index, p) && p.turn == side_to_move {
                    let p = choose|p: BoardPosition| #[trigger] self.decodes_global(index, p) && p.turn == side_to_move;
                    let e2 = choose|e2: int|
                        0 <= e2 < self.egts@.len() && ranges_sum(self.egts@, e2) <= index && index - ranges_sum(self.egts@, e2)
                            < self.egts@[e2].indexer.index_range && #[trigger] self.egts@[e2].indexer.decodes(
                            (index - ranges_sum(self.egts@, e2)) as u64,
                            p,
                        );
                    lemma_ranges_mono(self.egts@, e2 + 1, self.egts@.len() as int);
                }
            }
            return None;
        }
        let mut remaining = index;
        let mut e: usize = 0;
        while e < self.egts.len()
            invariant
                0 <= e <= self.egts@.len(),
                self.wf(),
                remaining as int == index - ranges_sum(self.egts@, e as int),
                index < self.index_range,
            ensures
                e == self.egts@.len() || remaining < self.egts@[e as int].indexer.index_range,
            decreases self.egts.len() - e,
        {
            let range = self.egts[e].indexer.index_range;
            if remaining < range {
                break;
            }
            remaining = remaining - range;
            e += 1;
        }
        if e == self.egts.len() {
            return None;
        }
        if remaining >= self.egts[e].indexer.index_range {
            return None;
        }
        proof {
            if exists|p: BoardPosition| #[trigger] self.decodes_global(index, p) && p.turn == side_to_move {
                let p = choose|p: BoardPosition| #[trigger] self.decodes_global(index, p) && p.turn == side_to_move;
                self.lemma_decoded_table(index, p, e as int);
            }
        }
        let ghost before = *self;
        let r = {
            let egt = &mut self.egts[e];
            egt.position_from_index(remaining, side_to_move)
        };
        proof {
            assert forall|k: int| 0 <= k < self.egts@.len() implies (#[trigger] self.egts@[k]).wf() by {
                if k != e {
                    assert(self.egts@[k] == before.egts@[k]);
                }
            }
            assert forall|k: int| 0 <= k < self.egts@.len() implies #[trigger] table_of_key(self.egts@[k], self.egt_keys@[k]) by {
                if k != e {
                    assert(self.egts@[k] == before.egts@[k]);
                } else {
                    assert(table_of_key(before.egts@[k], before.egt_keys@[k]));
                    let (stm, sntm): (Seq<File>, Seq<File>) = choose|stm: Seq<File>, sntm: Seq<File>| #[trigger] table_config(
                        before.egts@[k],
                        before.egt_keys@[k],
                        stm,
                        sntm,
                    );
                    assert(table_config(self.egts@[k], self.egt_keys@[k], stm, sntm));
                }
            }
            lemma_ranges_same(self.egts@, before.egts@, self.egts@.len() as int);
            if r is Some {
                assert(before.egts@[e as int].indexer.decodes((index - ranges_sum(before.egts@, e as int)) as u64, r->0));
                lemma_ranges_same(self.egts@, before.egts@, e as int);
                lemma_ranges_same(self.egts@, before.egts@, e as int + 1);
                assert(self.egts@[e as int].indexer.decodes((index - ranges_sum(self.egts@, e as int)) as u64, r->0));
            }
        }
        r
    }

    /// Counts the wins, draws, losses and invalid entries of the file (an
    /// empty frame counts as invalid entries). Fails on a frame that is on
    /// disk.
    pub fn count_outcomes(&mut self) -> (r: Result<(u64, u64, u64, u64), EgtError>)
        requires
            old(self).wf(),
        ensures
            final(self).wf(),
            final(self).same_data(old(self)),
            r matches Ok(c) ==> c.0 == class_count(old(self).contents@, old(self).frames@.len() as int, 0)
                && c.1 == class_count(old(self).contents@, old(self).frames@.len() as int, 1)
                && c.2 == class_count(old(self).contents@, old(self).frames@.len() as int, 2)
                && c.3 == class_count(old(self).contents@, old(self).frames@.len() as int, 3),
            (forall|g: int| 0 <= g < old(self).frames@.len() ==> frame_in_memory(#[trigger] old(self).frames@[g]))
                && old(self).frames@.len() * old(self).frame_size <= u64::MAX ==> r is Ok,
    {
        let ghost fits = (forall|g: int| 0 <= g < old(self).frames@.len() ==> frame_in_memory(#[trigger] old(self).frames@[g]))
            && old(self).frames@.len() * old(self).frame_size <= u64::MAX;
        let ghost nf = self.frame_size as nat;
        proof {
            assert forall|g: int| 0 <= g < self.contents@.len() implies (#[trigger] self.contents@[g]).len() == nf by {
                assert(frame_holds(self.frames@[g], self.contents@[g], nf));
            }
        }
        let mut wins: u64 = 0;
        let mut draws: u64 = 0;
        let mut losses: u64 = 0;
        let mut invalid: u64 = 0;
        let ghost contents = self.contents@;
        let n = self.frames.len();
        let mut f: usize = 0;
        while f < n
            invariant
                0 <= f <= n == self.frames@.len(),
                self.wf(),
                self.same_data(old(self)),
                self.contents@ == contents,
                wins == class_count(contents, f as int, 0),
                draws == class_count(contents, f as int, 1),
                losses == class_count(contents, f as int, 2),
                invalid == class_count(contents, f as int, 3),
                self.keeps_in_memory(old(self)),
                nf == self.frame_size,
                contents.len() == n,
                forall|g: int| 0 <= g < contents.len() ==> (#[trigger] contents[g]).len() == nf,
                fits == ((forall|g: int| 0 <= g < old(self).frames@.len() ==> frame_in_memory(#[trigger] old(self).frames@[g]))
                    && old(self).frames@.len() * old(self).frame_size <= u64::MAX),
                n == old(self).frames@.len(),
                nf == old(self).frame_size,
            decreases n - f,
        {
            proof {
                lemma_class_count_le(contents, f as int + 1, 0, nf);
                lemma_class_count_le(contents, f as int + 1, 1, nf);
                lemma_class_count_le(contents, f as int + 1, 2, nf);
                lemma_class_count_le(contents, f as int + 1, 3, nf);
                assert((f as int + 1) * nf <= n * nf) by (nonlinear_arith)
                    requires
                        f < n,
                ;
                if fits {
                    assert(frame_in_memory(old(self).frames@[f as int]));
                }
            }
            let empty = match &self.frames[f] {
                FrameState::Empty => true,
                _ => false,
            };
            if empty {
                proof {
                    assert(frame_holds(self.frames@[f as int], contents[f as int], self.frame_size as nat));
                    lemma_invalid_frame_counts(self.frame_size as nat, self.frame_size as int, 0);
                    lemma_invalid_frame_counts(self.frame_size as nat, self.frame_size as int, 1);
                    lemma_invalid_frame_counts(self.frame_size as nat, self.frame_size as int, 2);
                    lemma_invalid_frame_counts(self.frame_size as nat, self.frame_size as int, 3);
                }
                invalid = match invalid.checked_add(self.frame_size as u64) {
                    Some(v) => v,
                    None => return Err(EgtError::Internal("count overflow")),
                };
            } else {
                proof {
                    if fits {
                        assert(frame_in_memory(old(self).frames@[f as int]));
                        assert(frame_in_memory(self.frames@[f as int]));
                    }
                }
                match self.ensure_uncompressed(f) {
                    Ok(()) => {},
                    Err(e) => return Err(e),
                }
                assert(frame_holds(self.frames@[f as int], contents[f as int], self.frame_size as nat));
                let (w, d, l, i) = match &self.frames[f] {
                    FrameState::Uncompressed { uncompressed, .. } => count_frame_values(uncompressed),
                    _ => return Err(EgtError::Internal("frame not uncompressed")),
                };
                wins = match wins.checked_add(w) {
                    Some(v) => v,
                    None => return Err(EgtError::Internal("count overflow")),
                };
                draws = match draws.checked_add(d) {
                    Some(v) => v,
                    None => return Err(EgtError::Internal("count overflow")),
                };
                losses = match losses.checked_add(l) {
                    Some(v) => v,
                    None => return Err(EgtError::Internal("count overflow")),
                };
                invalid = match invalid.checked_add(i) {
                    Some(v) => v,
                    None => return Err(EgtError::Internal("count overflow")),
                };
            }
            f += 1;
        }
        Ok((wins, draws, losses, invalid))
    }

    /// Marks every frame as compressed in the file on disk, whose outcomes are
    /// then read on demand (see `install_frame`).
    #[verifier::rlimit(30)]
    #[verifier::spinoff_prover]
    pub fn set_frames_on_file(&mut self)
        requires
            old(self).wf(),
        ensures
            final(self).wf(),
            final(self).same_data(old(self)),
            forall|f: int| 0 <= f < final(self).frames@.len() ==> #[trigger] final(self).frames@[f] is CompressedOnFile,
    {
        let n = self.frames.len();
        let mut f: usize = 0;
        while f < n
            invariant
                0 <= f <= n == self.frames@.len(),
                self.wf(),
                self.same_data(old(self)),
                forall|g: int| 0 <= g < f ==> #[trigger] self.frames@[g] is CompressedOnFile,
            decreases n - f,
        {
            self.frames.set(f, FrameState::CompressedOnFile);
            f += 1;
        }
    }

    /// Installs a frame read from the file on disk, given in bit-sliced form;
    /// its outcomes become those of the bytes. Fails on a frame that is not on
    /// disk and on too few bytes.
    pub fn install_frame(&mut self, frame_idx: usize, transposed: &[u8]) -> (r: Result<(), EgtError>)
        requires
            old(self).wf(),
            frame_idx < old(self).frames@.len(),
        ensures
            final(self).wf(),
            r is Err ==> final(self).same_data(old(self)),
            r is Ok ==> is_detransposed(transposed@, old(self).frame_size as int, final(self).contents@[frame_idx as int])
                && final(self).contents@ == old(self).contents@.update(frame_idx as int, final(self).contents@[frame_idx as int])
                && final(self).frames@[frame_idx as int] is Uncompressed,
            r is Ok <==> old(self).frames@[frame_idx as int] is CompressedOnFile && transposed@.len() >= 2 * old(self).frame_size,
            forall|g: int| 0 <= g < final(self).frames@.len() && g != frame_idx ==> #[trigger] final(self).frames@[g] == old(self).frames@[g],
            final(self).frame_size == old(self).frame_size,
            final(self).index_range == old(self).index_range,
            final(self).frames@.len() == old(self).frames@.len(),
            final(self).egt_keys@ == old(self).egt_keys@,
            final(self).egts@ == old(self).egts@,
    {
        let on_file = match &self.frames[frame_idx] {
            FrameState::CompressedOnFile => true,
            _ => false,
        };
        if !on_file {
            return Err(EgtError::Internal("frame is not on disk"));
        }
        proof {
            crate::frame::lemma_needed_le(self.frame_size as int);
        }
        if transposed.len() < self.frame_size * 2 {
            return Err(EgtError::Internal("frame too short"));
        }
        let uncompressed = detranspose_frame(transposed, self.frame_size);
        let ghost vals = uncompressed@;
        self.frames.set(frame_idx, FrameState::Uncompressed { compressed: Vec::new(), uncompressed, dirty: true });
        proof {
            self.contents@ = self.contents@.update(frame_idx as int, vals);
            assert forall|g: int| 0 <= g < self.frames@.len() implies frame_holds(#[trigger] self.frames@[g], self.contents@[g], self.frame_size as nat) by {
                if g != frame_idx {
                    assert(self.frames@[g] == old(self).frames@[g]);
                }
            }
        }
        Ok(())
    }

    /// The bit-sliced form of a frame, as it is written to disk.
    pub fn transposed_frame(&mut self, frame_idx: usize) -> (r: Result<Vec<u8>, EgtError>)
        requires
            old(self).wf(),
            frame_idx < old(self).frames@.len(),
        ensures
            final(self).wf(),
            final(self).same_data(old(self)),
            r matches Ok(t) ==> is_transposed(old(self).contents@[frame_idx as int], t@),
            frame_in_memory(old(self).frames@[frame_idx as int]) ==> r is Ok,
            final(self).keeps_in_memory(old(self)),
    {
        match self.ensure_uncompressed(frame_idx) {
            Ok(()) => {},
            Err(e) => return Err(e),
        }
        assert(frame_holds(self.frames@[frame_idx as int], self.contents@[frame_idx as int], self.frame_size as nat));
        match &self.frames[frame_idx] {
            FrameState::Uncompressed { uncompressed, .. } => Ok(transpose_frame(uncompressed.as_slice())),
            _ => Err(EgtError::Internal("frame not uncompressed")),
        }
    }
}

/// Counts the wins, draws, losses and invalid entries of a frame.
fn count_frame_values(vals: &Vec<MaybeDtcOutcome>) -> (r: (u64, u64, u64, u64))
    requires
        vals@.len() <= 0x1000_0000,
    ensures
        r.0 == frame_class_count(vals@, vals@.len() as int, 0),
        r.1 == frame_class_count(vals@, vals@.len() as int, 1),
        r.2 == frame_class_count(vals@, vals@.len() as int, 2),
        r.3 == frame_class_count(vals@, vals@.len() as int, 3),
{
    let mut w: u64 = 0;
    let mut d: u64 = 0;
    let mut l: u64 = 0;
    let mut inv: u64 = 0;
    let mut i: usize = 0;
    while i < vals.len()
        invariant
            0 <= i <= vals@.len() <= 0x1000_0000,
            w == frame_class_count(vals@, i as int, 0),
            d == frame_class_count(vals@, i as int, 1),
            l == frame_class_count(vals@, i as int, 2),
            inv == frame_class_count(vals@, i as int, 3),
            w + d + l + inv <= i,
        decreases vals.len() - i,
    {
        let v = vals[i];
        if v.is_win() {
            w += 1;
        } else if v.is_loss() {
            l += 1;
        } else if v.is_draw() {
            d += 1;
        } else if v.is_invalid() {
            inv += 1;
        }
        i += 1;
    }
    (w, d, l, inv)
}

} // verus!
