//! Frame-length walking.
//!
//! To find where a compressed tile ends without decompressing it, the
//! reader parses the outermost framing of the entropy format: the
//! frame header descriptor (dictionary-id width, single-segment flag,
//! content-size width, checksum flag), then the chain of three-byte
//! block headers (last-block bit, block type, block size) until the
//! last block. Only raw, run-length and compressed blocks are
//! expected; the reserved block type is a hard error.

use vstd::prelude::*;

use crate::error::TileError;

verus! {

/// Walks block headers from `pos`; returns the offset just past the
/// last block's body.
pub open spec fn walk_blocks(b: Seq<u8>, pos: int) -> Result<int, TileError>
    decreases b.len() - pos,
{
    if pos < 0 || pos + 3 > b.len() {
        Err(TileError::CorruptFrame)
    } else {
        let h = b[pos] + 256 * b[pos + 1] + 65536 * b[pos + 2];
        let btype = (h / 2) % 4;
        let body: int = if btype == 1 {
            1
        } else {
            h / 8
        };
        if btype == 3 {
            Err(TileError::CorruptFrame)
        } else if pos + 3 + body > b.len() {
            Err(TileError::CorruptFrame)
        } else if h % 2 == 1 {
            Ok(pos + 3 + body)
        } else {
            walk_blocks(b, pos + 3 + body)
        }
    }
}

/// A successful walk ends past its first block header and within the
/// buffer.
pub proof fn lemma_walk_blocks_bounds(b: Seq<u8>, pos: int)
    requires
        walk_blocks(b, pos) is Ok,
    ensures
        pos + 3 <= walk_blocks(b, pos)->Ok_0 <= b.len(),
    decreases b.len() - pos,
{
    let h = b[pos] + 256 * b[pos + 1] + 65536 * b[pos + 2];
    let btype = (h / 2) % 4;
    let body: int = if btype == 1 {
        1
    } else {
        h / 8
    };
    if h % 2 != 1 {
        lemma_walk_blocks_bounds(b, pos + 3 + body);
    }
}

/// The byte length of the frame starting at `base`, by walking its
/// header and block chain; `Err` when the framing is malformed or
/// runs past the end of the buffer.
pub open spec fn frame_len_at(b: Seq<u8>, base: int) -> Result<int, TileError> {
    if base < 0 || base + 1 > b.len() {
        Err(TileError::CorruptFrame)
    } else {
        let desc = b[base] as int;
        let fcs_code = desc / 64;
        let single = (desc / 32) % 2 == 1;
        let reserved = (desc / 8) % 2 == 1;
        let checksum = (desc / 4) % 2 == 1;
        let did_code = desc % 4;
        let did_len: int = if did_code == 0 {
            0
        } else if did_code == 1 {
            1
        } else if did_code == 2 {
            2
        } else {
            4
        };
        let fcs_len: int = if fcs_code == 0 {
            if single {
                1
            } else {
                0
            }
        } else if fcs_code == 1 {
            2
        } else if fcs_code == 2 {
            4
        } else {
            8
        };
        let header = 1 + (if single {
            0int
        } else {
            1
        }) + did_len + fcs_len;
        if reserved {
            Err(TileError::CorruptFrame)
        } else {
            match walk_blocks(b, base + header) {
                Ok(end) => {
                    let total = end - base + (if checksum {
                        4int
                    } else {
                        0
                    });
                    if base + total <= b.len() {
                        Ok(total)
                    } else {
                        Err(TileError::CorruptFrame)
                    }
                },
                Err(e) => Err(e),
            }
        }
    }
}

/// A successful frame length is positive and stays inside the buffer.
pub proof fn lemma_frame_len_bounds(b: Seq<u8>, base: int)
    requires
        frame_len_at(b, base) is Ok,
    ensures
        4 <= frame_len_at(b, base)->Ok_0,
        base + frame_len_at(b, base)->Ok_0 <= b.len(),
{
    let desc = b[base] as int;
    let single = (desc / 32) % 2 == 1;
    let did_code = desc % 4;
    let fcs_code = desc / 64;
    let did_len: int = if did_code == 0 {
        0
    } else if did_code == 1 {
        1
    } else if did_code == 2 {
        2
    } else {
        4
    };
    let fcs_len: int = if fcs_code == 0 {
        if single {
            1
        } else {
            0
        }
    } else if fcs_code == 1 {
        2
    } else if fcs_code == 2 {
        4
    } else {
        8
    };
    let header = 1 + (if single {
        0int
    } else {
        1
    }) + did_len + fcs_len;
    lemma_walk_blocks_bounds(b, base + header);
}

/// Computes the byte length of the frame starting at `base`.
pub fn frame_length(d: &Vec<u8>, base: usize) -> (r: Result<usize, TileError>)
    requires
        base <= d@.len(),
    ensures
        r matches Ok(l) ==> frame_len_at(d@, base as int) == Ok::<int, TileError>(l as int) && 4
            <= l && base + l <= d@.len(),
        r matches Err(e) ==> frame_len_at(d@, base as int) == Err::<int, TileError>(e),
{
    let len = d.len();
    if len - base < 1 {
        return Err(TileError::CorruptFrame);
    }
    let desc = d[base];
    let fcs_code = desc / 64;
    let single = (desc / 32) % 2 == 1;
    let reserved = (desc / 8) % 2 == 1;
    let checksum = (desc / 4) % 2 == 1;
    let did_code = desc % 4;
    let did_len: usize = if did_code == 0 {
        0
    } else if did_code == 1 {
        1
    } else if did_code == 2 {
        2
    } else {
        4
    };
    let fcs_len: usize = if fcs_code == 0 {
        if single {
            1
        } else {
            0
        }
    } else if fcs_code == 1 {
        2
    } else if fcs_code == 2 {
        4
    } else {
        8
    };
    let header: usize = 1 + (if single {
        0
    } else {
        1
    }) + did_len + fcs_len;
    if reserved {
        return Err(TileError::CorruptFrame);
    }
    if len - base < header {
        // The header alone runs past the end: the block walk starts
        // out of bounds.
        return Err(TileError::CorruptFrame);
    }
    let mut pos: usize = base + header;
    let mut walk_res: Result<usize, TileError> = Err(TileError::CorruptFrame);
    loop
        invariant_except_break
            d@.len() == len,
            base + header <= pos,
            walk_res == Err::<usize, TileError>(TileError::CorruptFrame),
            walk_blocks(d@, base as int + header as int) == walk_blocks(d@, pos as int),
        ensures
            walk_blocks(d@, base as int + header as int) == (match walk_res {
                Ok(l) => Ok::<int, TileError>(l as int),
                Err(e) => Err::<int, TileError>(e),
            }),
        decreases len - pos,
    {
        if len < 3 || pos > len - 3 {
            proof {
                assert(pos as int + 3 > d@.len());
                assert(walk_blocks(d@, pos as int) == Err::<int, TileError>(
                    TileError::CorruptFrame,
                ));
            }
            break;
        }
        let h: u32 = (d[pos] as u32) + 256 * (d[pos + 1] as u32) + 65536 * (d[pos + 2] as u32);
        let btype = (h / 2) % 4;
        let body: usize = if btype == 1 {
            1
        } else {
            (h / 8) as usize
        };
        proof {
            let hs = d@[pos as int] + 256 * d@[pos as int + 1] + 65536 * d@[pos as int + 2];
            assert(hs == h as int);
        }
        if btype == 3 {
            proof {
                assert(walk_blocks(d@, pos as int) == Err::<int, TileError>(
                    TileError::CorruptFrame,
                ));
            }
            break;
        }
        if body > len - (pos + 3) {
            proof {
                assert(walk_blocks(d@, pos as int) == Err::<int, TileError>(
                    TileError::CorruptFrame,
                ));
            }
            break;
        }
        if h % 2 == 1 {
            walk_res = Ok(pos + 3 + body);
            break;
        }
        pos = pos + 3 + body;
    }
    match walk_res {
        Ok(end) => {
            proof {
                lemma_walk_blocks_bounds(d@, base as int + header as int);
            }
            let tail: usize = if checksum {
                4
            } else {
                0
            };
            if len - end < tail {
                return Err(TileError::CorruptFrame);
            }
            Ok(end - base + tail)
        },
        Err(e) => Err(e),
    }
}


/// Walking one block chain inside a larger buffer: positions shift by
/// the embedding offset and the result is unchanged.
proof fn lemma_walk_blocks_embed(f: Seq<u8>, payload: Seq<u8>, base: int, pos: int)
    requires
        0 <= base,
        0 <= pos,
        base + f.len() <= payload.len(),
        payload.subrange(base, base + f.len() as int) == f,
        walk_blocks(f, pos) is Ok,
        walk_blocks(f, pos)->Ok_0 <= f.len(),
    ensures
        walk_blocks(payload, base + pos) == Ok::<int, TileError>(
            base + walk_blocks(f, pos)->Ok_0,
        ),
    decreases f.len() - pos,
{
    lemma_walk_blocks_bounds(f, pos);
    assert(pos + 3 <= f.len());
    assert forall|k: int| 0 <= k < f.len() implies payload[base + k] == f[k] by {
        assert(payload.subrange(base, base + f.len() as int)[k] == payload[base + k]);
    }
    let h = f[pos] + 256 * f[pos + 1] + 65536 * f[pos + 2];
    let btype = (h / 2) % 4;
    let body: int = if btype == 1 {
        1
    } else {
        h / 8
    };
    assert(btype != 3 && pos + 3 + body <= f.len());
    if h % 2 == 1 {
    } else {
        lemma_walk_blocks_bounds(f, pos + 3 + body);
        lemma_walk_blocks_embed(f, payload, base, pos + 3 + body);
    }
}

/// A frame whose walk measures exactly its own bytes keeps that
/// measure wherever it is embedded: with any bytes around it, walking
/// from its start still returns its length. With the builder's
/// contracts this makes every appended frame measurable in the final
/// payload, so orphan enumeration composes with building.
pub proof fn lemma_frame_len_embed(f: Seq<u8>, payload: Seq<u8>, base: int)
    requires
        frame_len_at(f, 0) == Ok::<int, TileError>(f.len() as int),
        0 <= base,
        base + f.len() <= payload.len(),
        payload.subrange(base, base + f.len() as int) == f,
    ensures
        frame_len_at(payload, base) == Ok::<int, TileError>(f.len() as int),
{
    lemma_frame_len_bounds(f, 0);
    assert forall|k: int| 0 <= k < f.len() implies payload[base + k] == f[k] by {
        assert(payload.subrange(base, base + f.len() as int)[k] == payload[base + k]);
    }
    let desc = f[0] as int;
    let fcs_code = desc / 64;
    let single = (desc / 32) % 2 == 1;
    let did_code = desc % 4;
    let did_len: int = if did_code == 0 {
        0
    } else if did_code == 1 {
        1
    } else if did_code == 2 {
        2
    } else {
        4
    };
    let fcs_len: int = if fcs_code == 0 {
        if single {
            1
        } else {
            0
        }
    } else if fcs_code == 1 {
        2
    } else if fcs_code == 2 {
        4
    } else {
        8
    };
    let header = 1 + (if single {
        0int
    } else {
        1
    }) + did_len + fcs_len;
    lemma_walk_blocks_bounds(f, header);
    lemma_walk_blocks_embed(f, payload, base, header);
}


/// A frame start the sequential frame-length walk from `pos` reaches.
/// `orphan_walk` and the builder's append order both step through
/// exactly these positions.
pub open spec fn walk_visits(payload: Seq<u8>, pos: int, s: int) -> bool
    decreases payload.len() - pos,
{
    if pos < 0 || pos >= payload.len() {
        false
    } else if frame_len_at(payload, pos) is Err {
        false
    } else if s == pos {
        true
    } else {
        let l = frame_len_at(payload, pos)->Ok_0;
        let step: int = if l < 1 {
            1
        } else {
            l
        };
        walk_visits(payload, pos + step, s)
    }
}

/// Walked frame starts never lie before the walk's origin.
proof fn lemma_walk_visits_ge(payload: Seq<u8>, pos: int, s: int)
    requires
        walk_visits(payload, pos, s),
    ensures
        pos <= s,
    decreases payload.len() - pos,
{
    if s != pos {
        let l = frame_len_at(payload, pos)->Ok_0;
        let step: int = if l < 1 {
            1
        } else {
            l
        };
        lemma_walk_visits_ge(payload, pos + step, s);
    }
}

/// Non-overlap by frame-length walking: two distinct frame starts the
/// sequential walk reaches have disjoint frames -- the earlier frame
/// ends at or before the later one begins. The entries of a cleanly
/// built offset table are such walked starts, so the frames at
/// distinct non-zero entries do not overlap.
pub proof fn lemma_walk_frames_disjoint(payload: Seq<u8>, pos: int, s1: int, s2: int)
    requires
        walk_visits(payload, pos, s1),
        walk_visits(payload, pos, s2),
        s1 < s2,
    ensures
        frame_len_at(payload, s1) is Ok,
        s1 + frame_len_at(payload, s1)->Ok_0 <= s2,
    decreases payload.len() - pos,
{
    let l = frame_len_at(payload, pos)->Ok_0;
    let step: int = if l < 1 {
        1
    } else {
        l
    };
    if pos == s1 {
        lemma_frame_len_bounds(payload, pos);
        assert(walk_visits(payload, pos + step, s2));
        lemma_walk_visits_ge(payload, pos + step, s2);
    } else {
        lemma_walk_visits_ge(payload, pos, s1);
        assert(walk_visits(payload, pos + step, s1));
        assert(walk_visits(payload, pos + step, s2));
        lemma_walk_frames_disjoint(payload, pos + step, s1, s2);
    }
}

} // verus!
