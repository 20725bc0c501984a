//! The snapshot codec: lossless serialization of the whole graph plus its
//! display flags.
//!
//! A snapshot is a flat stream of tokens — signed numbers and one text label
//! per node — rendered as a line of space-separated fields.  Both layers are
//! exact: encoding and rendering are spec-level functions of the graph, the
//! decoder accepts exactly the valid encodings and returns a graph whose
//! encoding is the input, parsing inverts rendering, and encodings are
//! injective — so loading a saved snapshot provably restores the saved
//! state field for field.  Decoding never touches existing state; a
//! malformed snapshot yields an error carrying a human-readable message.

use vstd::prelude::*;
use vstd::string::StringExecFns;
use crate::rat::Rat;
use crate::dist::{Distribution, EngineError};
use crate::graph::{Graph, ids_sorted};

verus! {

/// One field of a snapshot.
pub enum Token {
    /// A number: a flag, an identifier, a count, or one half of a fraction.
    Num(i64),
    /// A node's display label.
    Text(String),
}

/// A boolean as its numeric field.
pub open spec fn bool_num(b: bool) -> Token {
    if b {
        Token::Num(1)
    } else {
        Token::Num(0)
    }
}

/// The token block of one node: identifier, mean, standard deviation, the
/// product flag, the parent list with its length, and the label.
pub open spec fn spec_node_tokens(d: Distribution) -> Seq<Token> {
    seq![
        Token::Num(d.id as i64),
        Token::Num(d.mean.num),
        Token::Num(d.mean.den),
        Token::Num(d.std_dev.num),
        Token::Num(d.std_dev.den),
        bool_num(d.is_product),
        Token::Num(d.parent_ids@.len() as i64),
    ] + Seq::new(d.parent_ids@.len(), |j: int| Token::Num(d.parent_ids@[j] as i64)) + seq![
        Token::Text(d.name),
    ]
}

/// The concatenated blocks of the first `i` nodes.
pub open spec fn spec_nodes_tokens(s: Seq<Distribution>, i: int) -> Seq<Token>
    decreases i,
{
    if i <= 0 {
        Seq::empty()
    } else {
        spec_nodes_tokens(s, i - 1) + spec_node_tokens(s[i - 1])
    }
}

/// The full token stream of a graph: the display flags, the allocation
/// counter, the node count, then the node blocks.  The plot window is
/// display-transient state and is not part of a snapshot.
pub open spec fn spec_tokens(g: Graph) -> Seq<Token> {
    seq![
        bool_num(g.show_shading),
        Token::Num(g.shading_opacity.num),
        Token::Num(g.shading_opacity.den),
        bool_num(g.show_std_markers),
        Token::Num(g.next_id as i64),
        Token::Num(g.nodes@.len() as i64),
    ] + spec_nodes_tokens(g.nodes@, g.nodes@.len() as int)
}

/// Encode a graph as its token stream.
pub fn encode_tokens(g: &Graph) -> (r: Vec<Token>)
    ensures
        r@ == spec_tokens(*g),
{
    let mut r: Vec<Token> = Vec::new();
    r.push(if g.show_shading {
        Token::Num(1)
    } else {
        Token::Num(0)
    });
    r.push(Token::Num(g.shading_opacity.num));
    r.push(Token::Num(g.shading_opacity.den));
    r.push(if g.show_std_markers {
        Token::Num(1)
    } else {
        Token::Num(0)
    });
    r.push(Token::Num(g.next_id as i64));
    r.push(Token::Num(g.nodes.len() as i64));
    let ghost header = r@;
    let n = g.nodes.len();
    let mut i: usize = 0;
    while i < n
        invariant
            0 <= i <= n,
            n == g.nodes@.len(),
            r@ == header + spec_nodes_tokens(g.nodes@, i as int),
        decreases n - i,
    {
        let ghost before = r@;
        let d = &g.nodes[i];
        r.push(Token::Num(d.id as i64));
        r.push(Token::Num(d.mean.num));
        r.push(Token::Num(d.mean.den));
        r.push(Token::Num(d.std_dev.num));
        r.push(Token::Num(d.std_dev.den));
        r.push(if d.is_product {
            Token::Num(1)
        } else {
            Token::Num(0)
        });
        r.push(Token::Num(d.parent_ids.len() as i64));
        let m = d.parent_ids.len();
        let mut j: usize = 0;
        while j < m
            invariant
                0 <= j <= m,
                m == d.parent_ids@.len(),
                r@ == before + seq![
                    Token::Num(d.id as i64),
                    Token::Num(d.mean.num),
                    Token::Num(d.mean.den),
                    Token::Num(d.std_dev.num),
                    Token::Num(d.std_dev.den),
                    bool_num(d.is_product),
                    Token::Num(d.parent_ids@.len() as i64),
                ] + Seq::new(j as nat, |t: int| Token::Num(d.parent_ids@[t] as i64)),
            decreases m - j,
        {
            r.push(Token::Num(d.parent_ids[j] as i64));
            j = j + 1;
            proof {
                assert(Seq::new(j as nat, |t: int| Token::Num(d.parent_ids@[t] as i64))
                    =~= Seq::new((j - 1) as nat, |t: int| Token::Num(d.parent_ids@[t] as i64)).push(
                    Token::Num(d.parent_ids@[j - 1] as i64),
                ));
            }
        }
        r.push(Token::Text(d.name.clone()));
        i = i + 1;
        proof {
            assert(Seq::new(m as nat, |t: int| Token::Num(d.parent_ids@[t] as i64)) =~= Seq::new(
                d.parent_ids@.len(),
                |t: int| Token::Num(d.parent_ids@[t] as i64),
            ));
            assert(r@ =~= before + spec_node_tokens(g.nodes@[i - 1]));
            assert(r@ =~= header + spec_nodes_tokens(g.nodes@, i as int));
        }
    }
    proof {
        assert(r@ =~= spec_tokens(*g));
    }
    r
}

/// Decode a token stream.
///
/// The decoder is strict and complete: it accepts exactly the streams this
/// codec emits for well-formed graphs.  On success the input is the
/// encoding of the returned graph, whose plot window is unset; and every
/// encoding of a well-formed, machine-sized graph is accepted.  Anything
/// else is a decode error carrying a message; nothing is mutated either
/// way.
#[verifier::rlimit(60)]
pub fn decode_tokens(toks: &Vec<Token>) -> (r: Result<Graph, EngineError>)
    ensures
        r matches Ok(g) ==> g.wf() && g.plot_bounds is None && toks@ == spec_tokens(g),
        r matches Ok(g) ==> g.nodes@.len() <= i64::MAX && (forall|i: int|
            0 <= i < g.nodes@.len() ==> (#[trigger] g.nodes@[i]).parent_ids@.len() <= i64::MAX),
        r matches Err(e) ==> decode_failure(e),
        forall|g0: Graph|
            g0.wf() && snapshot_sized(g0) && tokens_match(toks@, #[trigger] spec_tokens(g0))
                ==> r is Ok,
{
    let n = toks.len();
    let mut idx: usize = 0;
    let show_shading = match read_flag(toks, idx) {
        Some(b) => b,
        None => {
            proof {
                assert forall|g0: Graph| g0.wf() && snapshot_sized(g0) implies !tokens_match(
                    toks@,
                    #[trigger] spec_tokens(g0),
                ) by {
                    if tokens_match(toks@, spec_tokens(g0)) {
                        lemma_header_pinned(toks@, g0);
                        assert(false);
                    }
                }
            }
            return Err(decode_error());
        },
    };
    idx = idx + 1;
    let op_num = match read_num(toks, idx) {
        Some(v) => v,
        None => {
            proof {
                assert forall|g0: Graph| g0.wf() && snapshot_sized(g0) implies !tokens_match(
                    toks@,
                    #[trigger] spec_tokens(g0),
                ) by {
                    if tokens_match(toks@, spec_tokens(g0)) {
                        lemma_header_pinned(toks@, g0);
                        assert(false);
                    }
                }
            }
            return Err(decode_error());
        },
    };
    idx = idx + 1;
    let op_den = match read_num(toks, idx) {
        Some(v) => v,
        None => {
            proof {
                assert forall|g0: Graph| g0.wf() && snapshot_sized(g0) implies !tokens_match(
                    toks@,
                    #[trigger] spec_tokens(g0),
                ) by {
                    if tokens_match(toks@, spec_tokens(g0)) {
                        lemma_header_pinned(toks@, g0);
                        assert(false);
                    }
                }
            }
            return Err(decode_error());
        },
    };
    idx = idx + 1;
    if op_den <= 0 || op_num < 0 || op_num > op_den {
        proof {
            assert forall|g0: Graph| g0.wf() && snapshot_sized(g0) implies !tokens_match(
                toks@,
                #[trigger] spec_tokens(g0),
            ) by {
                if tokens_match(toks@, spec_tokens(g0)) {
                    lemma_header_pinned(toks@, g0);
                    assert(false);
                }
            }
        }
        return Err(decode_error());
    }
    let show_std_markers = match read_flag(toks, idx) {
        Some(b) => b,
        None => {
            proof {
                assert forall|g0: Graph| g0.wf() && snapshot_sized(g0) implies !tokens_match(
                    toks@,
                    #[trigger] spec_tokens(g0),
                ) by {
                    if tokens_match(toks@, spec_tokens(g0)) {
                        lemma_header_pinned(toks@, g0);
                        assert(false);
                    }
                }
            }
            return Err(decode_error());
        },
    };
    idx = idx + 1;
    let next_id_raw = match read_num(toks, idx) {
        Some(v) => v,
        None => {
            proof {
                assert forall|g0: Graph| g0.wf() && snapshot_sized(g0) implies !tokens_match(
                    toks@,
                    #[trigger] spec_tokens(g0),
                ) by {
                    if tokens_match(toks@, spec_tokens(g0)) {
                        lemma_header_pinned(toks@, g0);
                        assert(false);
                    }
                }
            }
            return Err(decode_error());
        },
    };
    idx = idx + 1;
    if next_id_raw < 0 || next_id_raw > u32::MAX as i64 {
        proof {
            assert forall|g0: Graph| g0.wf() && snapshot_sized(g0) implies !tokens_match(
                toks@,
                #[trigger] spec_tokens(g0),
            ) by {
                if tokens_match(toks@, spec_tokens(g0)) {
                    lemma_header_pinned(toks@, g0);
                    assert(false);
                }
            }
        }
        return Err(decode_error());
    }
    let next_id = next_id_raw as u32;
    let count_raw = match read_num(toks, idx) {
        Some(v) => v,
        None => {
            proof {
                assert forall|g0: Graph| g0.wf() && snapshot_sized(g0) implies !tokens_match(
                    toks@,
                    #[trigger] spec_tokens(g0),
                ) by {
                    if tokens_match(toks@, spec_tokens(g0)) {
                        lemma_header_pinned(toks@, g0);
                        assert(false);
                    }
                }
            }
            return Err(decode_error());
        },
    };
    idx = idx + 1;
    if count_raw < 0 || count_raw > n as i64 {
        proof {
            assert forall|g0: Graph| g0.wf() && snapshot_sized(g0) implies !tokens_match(
                toks@,
                #[trigger] spec_tokens(g0),
            ) by {
                if tokens_match(toks@, spec_tokens(g0)) {
                    lemma_header_pinned(toks@, g0);
                    assert(false);
                }
            }
        }
        return Err(decode_error());
    }
    let count = count_raw as usize;
    proof {
        assert(count as int == count_raw as int);
        assert(count <= 0x7fff_ffff_ffff_ffff);
        assert forall|g0: Graph|
            g0.wf() && snapshot_sized(g0) && tokens_match(toks@, #[trigger] spec_tokens(g0)) implies (count
            == g0.nodes@.len() && next_id == g0.next_id && idx == 6 + spec_nodes_tokens(
            g0.nodes@,
            0,
        ).len()) by {
            lemma_header_pinned(toks@, g0);
            assert(spec_nodes_tokens(g0.nodes@, 0).len() == 0);
        }
    }
    let mut nodes: Vec<Distribution> = Vec::new();
    let mut k: usize = 0;
    while k < count
        invariant
            0 <= k <= count,
            idx <= n,
            n == toks@.len(),
            nodes@.len() == k,
            toks@.subrange(0, idx as int) == seq![
                bool_num(show_shading),
                Token::Num(op_num),
                Token::Num(op_den),
                bool_num(show_std_markers),
                Token::Num(next_id as i64),
                Token::Num(count as i64),
            ] + spec_nodes_tokens(nodes@, k as int),
            forall|t: int| 0 <= t < k ==> (#[trigger] nodes@[t]).valid(),
            ids_sorted(nodes@),
            forall|t: int| 0 <= t < k ==> (#[trigger] nodes@[t]).id < next_id,
            count <= 0x7fff_ffff_ffff_ffff,
            forall|t: int|
                0 <= t < k ==> (#[trigger] nodes@[t]).parent_ids@.len()
                    <= 0x7fff_ffff_ffff_ffff,
            forall|g0: Graph|
                g0.wf() && snapshot_sized(g0) && tokens_match(toks@, #[trigger] spec_tokens(g0))
                    ==> (count == g0.nodes@.len() && next_id == g0.next_id && k
                    <= g0.nodes@.len() && idx == 6 + spec_nodes_tokens(g0.nodes@, k as int).len()
                    && (forall|t: int|
                    0 <= t < k ==> (#[trigger] nodes@[t]).id == g0.nodes@[t].id)),
        decreases count - k,
    {
        let ghost before_idx = idx as int;
        let ghost before_nodes = nodes@;
        let id_raw = match read_num(toks, idx) {
            Some(v) => v,
            None => {
                proof {
                    assert forall|g0: Graph| g0.wf() && snapshot_sized(g0) implies !tokens_match(
                        toks@,
                        #[trigger] spec_tokens(g0),
                    ) by {
                        if tokens_match(toks@, spec_tokens(g0)) {
                            lemma_block_pinned(toks@, g0, k as int, before_idx);
                            assert(false);
                        }
                    }
                }
                return Err(decode_error());
            },
        };
        idx = idx + 1;
        if id_raw < 0 || id_raw >= next_id as i64 {
            proof {
                assert forall|g0: Graph| g0.wf() && snapshot_sized(g0) implies !tokens_match(
                    toks@,
                    #[trigger] spec_tokens(g0),
                ) by {
                    if tokens_match(toks@, spec_tokens(g0)) {
                        lemma_block_pinned(toks@, g0, k as int, before_idx);
                        assert(id_raw == g0.nodes@[k as int].id as i64);
                        assert(g0.nodes@[k as int].id < g0.next_id);
                        assert(false);
                    }
                }
            }
            return Err(decode_error());
        }
        let id = id_raw as u32;
        if nodes.len() > 0 {
            let last_id = nodes[nodes.len() - 1].id;
            if last_id >= id {
                proof {
                    assert forall|g0: Graph| g0.wf() && snapshot_sized(g0) implies !tokens_match(
                        toks@,
                        #[trigger] spec_tokens(g0),
                    ) by {
                        if tokens_match(toks@, spec_tokens(g0)) {
                            lemma_block_pinned(toks@, g0, k as int, before_idx);
                            assert(nodes@[k - 1].id == g0.nodes@[k - 1].id);
                            assert(g0.nodes@[k - 1].id < g0.nodes@[k as int].id);
                            assert(id == g0.nodes@[k as int].id);
                            assert(false);
                        }
                    }
                }
                return Err(decode_error());
            }
        }
        let mean_num = match read_num(toks, idx) {
            Some(v) => v,
            None => {
                proof {
                    assert forall|g0: Graph| g0.wf() && snapshot_sized(g0) implies !tokens_match(
                        toks@,
                        #[trigger] spec_tokens(g0),
                    ) by {
                        if tokens_match(toks@, spec_tokens(g0)) {
                            lemma_block_pinned(toks@, g0, k as int, before_idx);
                            assert(false);
                        }
                    }
                }
                return Err(decode_error());
            },
        };
        idx = idx + 1;
        let mean_den = match read_num(toks, idx) {
            Some(v) => v,
            None => {
                proof {
                    assert forall|g0: Graph| g0.wf() && snapshot_sized(g0) implies !tokens_match(
                        toks@,
                        #[trigger] spec_tokens(g0),
                    ) by {
                        if tokens_match(toks@, spec_tokens(g0)) {
                            lemma_block_pinned(toks@, g0, k as int, before_idx);
                            assert(false);
                        }
                    }
                }
                return Err(decode_error());
            },
        };
        idx = idx + 1;
        if mean_den <= 0 {
            proof {
                assert forall|g0: Graph| g0.wf() && snapshot_sized(g0) implies !tokens_match(
                    toks@,
                    #[trigger] spec_tokens(g0),
                ) by {
                    if tokens_match(toks@, spec_tokens(g0)) {
                        lemma_block_pinned(toks@, g0, k as int, before_idx);
                        assert(g0.nodes@[k as int].valid());
                        assert(false);
                    }
                }
            }
            return Err(decode_error());
        }
        let sd_num = match read_num(toks, idx) {
            Some(v) => v,
            None => {
                proof {
                    assert forall|g0: Graph| g0.wf() && snapshot_sized(g0) implies !tokens_match(
                        toks@,
                        #[trigger] spec_tokens(g0),
                    ) by {
                        if tokens_match(toks@, spec_tokens(g0)) {
                            lemma_block_pinned(toks@, g0, k as int, before_idx);
                            assert(false);
                        }
                    }
                }
                return Err(decode_error());
            },
        };
        idx = idx + 1;
        let sd_den = match read_num(toks, idx) {
            Some(v) => v,
            None => {
                proof {
                    assert forall|g0: Graph| g0.wf() && snapshot_sized(g0) implies !tokens_match(
                        toks@,
                        #[trigger] spec_tokens(g0),
                    ) by {
                        if tokens_match(toks@, spec_tokens(g0)) {
                            lemma_block_pinned(toks@, g0, k as int, before_idx);
                            assert(false);
                        }
                    }
                }
                return Err(decode_error());
            },
        };
        idx = idx + 1;
        if sd_den <= 0 || sd_num <= 0 {
            proof {
                assert forall|g0: Graph| g0.wf() && snapshot_sized(g0) implies !tokens_match(
                    toks@,
                    #[trigger] spec_tokens(g0),
                ) by {
                    if tokens_match(toks@, spec_tokens(g0)) {
                        lemma_block_pinned(toks@, g0, k as int, before_idx);
                        assert(g0.nodes@[k as int].valid());
                        assert(false);
                    }
                }
            }
            return Err(decode_error());
        }
        let is_product = match read_flag(toks, idx) {
            Some(b) => b,
            None => {
                proof {
                    assert forall|g0: Graph| g0.wf() && snapshot_sized(g0) implies !tokens_match(
                        toks@,
                        #[trigger] spec_tokens(g0),
                    ) by {
                        if tokens_match(toks@, spec_tokens(g0)) {
                            lemma_block_pinned(toks@, g0, k as int, before_idx);
                            assert(false);
                        }
                    }
                }
                return Err(decode_error());
            },
        };
        idx = idx + 1;
        let plen_raw = match read_num(toks, idx) {
            Some(v) => v,
            None => {
                proof {
                    assert forall|g0: Graph| g0.wf() && snapshot_sized(g0) implies !tokens_match(
                        toks@,
                        #[trigger] spec_tokens(g0),
                    ) by {
                        if tokens_match(toks@, spec_tokens(g0)) {
                            lemma_block_pinned(toks@, g0, k as int, before_idx);
                            assert(false);
                        }
                    }
                }
                return Err(decode_error());
            },
        };
        idx = idx + 1;
        if plen_raw < 0 || plen_raw > (n - idx) as i64 {
            proof {
                assert forall|g0: Graph| g0.wf() && snapshot_sized(g0) implies !tokens_match(
                    toks@,
                    #[trigger] spec_tokens(g0),
                ) by {
                    if tokens_match(toks@, spec_tokens(g0)) {
                        lemma_block_pinned(toks@, g0, k as int, before_idx);
                        lemma_header_pinned(toks@, g0);
                        assert(plen_raw == g0.nodes@[k as int].parent_ids@.len() as i64);
                        assert(before_idx + 8 + g0.nodes@[k as int].parent_ids@.len()
                            <= toks@.len());
                        assert(false);
                    }
                }
            }
            return Err(decode_error());
        }
        let plen = plen_raw as usize;
        proof {
            assert forall|g0: Graph|
                g0.wf() && snapshot_sized(g0) && tokens_match(toks@, #[trigger] spec_tokens(g0))
                    implies (count == g0.nodes@.len() && k < g0.nodes@.len() && before_idx == 6
                    + spec_nodes_tokens(g0.nodes@, k as int).len() && plen == g0.nodes@[
                    k as int].parent_ids@.len()) by {
                lemma_block_pinned(toks@, g0, k as int, before_idx);
                assert(plen_raw == g0.nodes@[k as int].parent_ids@.len() as i64);
            }
        }
        let mut parent_ids: Vec<u32> = Vec::new();
        let mut j: usize = 0;
        while j < plen
            invariant
                0 <= j <= plen,
                before_idx + 7 + plen <= n,
                n == toks@.len(),
                parent_ids@.len() == j,
                forall|t: int|
                    0 <= t < j ==> toks@[before_idx + 7 + t] == Token::Num(
                        (#[trigger] parent_ids@[t]) as i64,
                    ),
                idx == before_idx + 7 + j,
                forall|g0: Graph|
                    g0.wf() && snapshot_sized(g0) && tokens_match(toks@, #[trigger] spec_tokens(g0))
                    ==> (count == g0.nodes@.len() && k < g0.nodes@.len() && before_idx == 6
                        + spec_nodes_tokens(g0.nodes@, k as int).len() && plen == g0.nodes@[
                        k as int].parent_ids@.len()),
            decreases plen - j,
        {
            let pid_raw = match read_num(toks, idx) {
                Some(v) => v,
                None => {
                    proof {
                        assert forall|g0: Graph| g0.wf() && snapshot_sized(g0) implies !tokens_match(
                            toks@,
                            #[trigger] spec_tokens(g0),
                        ) by {
                            if tokens_match(toks@, spec_tokens(g0)) {
                                lemma_block_pinned(toks@, g0, k as int, before_idx);
                                assert(toks@[before_idx + 7 + j] == Token::Num(
                                    g0.nodes@[k as int].parent_ids@[j as int] as i64,
                                ));
                                assert(false);
                            }
                        }
                    }
                    return Err(decode_error());
                },
            };
            idx = idx + 1;
            if pid_raw < 0 || pid_raw > u32::MAX as i64 {
                proof {
                    assert forall|g0: Graph| g0.wf() && snapshot_sized(g0) implies !tokens_match(
                        toks@,
                        #[trigger] spec_tokens(g0),
                    ) by {
                        if tokens_match(toks@, spec_tokens(g0)) {
                            lemma_block_pinned(toks@, g0, k as int, before_idx);
                            assert(toks@[before_idx + 7 + j] == Token::Num(
                                g0.nodes@[k as int].parent_ids@[j as int] as i64,
                            ));
                            assert(false);
                        }
                    }
                }
                return Err(decode_error());
            }
            parent_ids.push(pid_raw as u32);
            j = j + 1;
            proof {
                assert(toks@[before_idx + 7 + (j - 1)] == Token::Num(
                    parent_ids@[j - 1] as i64,
                ));
            }
        }
        let name = match read_text(toks, idx) {
            Some(s) => s,
            None => {
                proof {
                    assert forall|g0: Graph| g0.wf() && snapshot_sized(g0) implies !tokens_match(
                        toks@,
                        #[trigger] spec_tokens(g0),
                    ) by {
                        if tokens_match(toks@, spec_tokens(g0)) {
                            lemma_block_pinned(toks@, g0, k as int, before_idx);
                            assert(toks@[before_idx + 7 + g0.nodes@[
                                k as int].parent_ids@.len()] is Text);
                            assert(false);
                        }
                    }
                }
                return Err(decode_error());
            },
        };
        idx = idx + 1;
        let node = Distribution {
            id,
            name,
            mean: Rat { num: mean_num, den: mean_den },
            std_dev: Rat { num: sd_num, den: sd_den },
            parent_ids,
            is_product,
        };
        proof {
            assert(spec_node_tokens(node) =~= toks@.subrange(before_idx, idx as int)) by {
                assert(spec_node_tokens(node).len() == 8 + node.parent_ids@.len());
                assert forall|t: int|
                    0 <= t < spec_node_tokens(node).len() implies #[trigger] spec_node_tokens(
                    node,
                )[t] == toks@.subrange(before_idx, idx as int)[t] by {
                    if 7 <= t < 7 + node.parent_ids@.len() {
                        assert(toks@[before_idx + t] == Token::Num(
                            node.parent_ids@[t - 7] as i64,
                        ));
                    }
                }
            }
        }
        nodes.push(node);
        k = k + 1;
        proof {
            assert(toks@.subrange(0, idx as int) =~= toks@.subrange(0, before_idx)
                + toks@.subrange(before_idx, idx as int));
            assert(nodes@.drop_last() == before_nodes);
            assert(spec_nodes_tokens(nodes@, k as int) == spec_nodes_tokens(nodes@, k - 1)
                + spec_node_tokens(nodes@[k - 1]));
            assert(spec_nodes_tokens_agrees(before_nodes, nodes@, k - 1)) by {
                lemma_nodes_tokens_prefix(before_nodes, nodes@, k - 1);
            }
            assert(ids_sorted(nodes@)) by {
                assert forall|a: int, b: int| 0 <= a < b < nodes@.len() implies (
                #[trigger] nodes@[a]).id < (#[trigger] nodes@[b]).id by {
                    if b < nodes@.len() - 1 {
                    } else {
                        if a < nodes@.len() - 1 {
                            assert(nodes@[a].id <= before_nodes[before_nodes.len() - 1].id || a
                                == before_nodes.len() - 1);
                        }
                    }
                }
            }
            assert forall|g0: Graph|
                g0.wf() && snapshot_sized(g0) && tokens_match(toks@, #[trigger] spec_tokens(g0))
                    implies (count == g0.nodes@.len() && next_id == g0.next_id && k
                    <= g0.nodes@.len() && idx == 6 + spec_nodes_tokens(g0.nodes@, k as int).len()
                    && (forall|t: int|
                    0 <= t < k ==> (#[trigger] nodes@[t]).id == g0.nodes@[t].id)) by {
                lemma_block_pinned(toks@, g0, k - 1, before_idx);
                assert(id_raw == g0.nodes@[k - 1].id as i64);
                assert(nodes@[k - 1].id == g0.nodes@[k - 1].id);
                assert forall|t: int| 0 <= t < k implies (#[trigger] nodes@[t]).id == g0.nodes@[
                    t].id by {
                    if t < k - 1 {
                        assert(nodes@[t] == before_nodes[t]);
                    }
                }
            }
        }
    }
    if idx != n {
        proof {
            assert forall|g0: Graph| g0.wf() && snapshot_sized(g0) implies !tokens_match(
                toks@,
                #[trigger] spec_tokens(g0),
            ) by {
                if tokens_match(toks@, spec_tokens(g0)) {
                    lemma_header_pinned(toks@, g0);
                    assert(k == g0.nodes@.len());
                    assert(false);
                }
            }
        }
        return Err(decode_error());
    }
    let g = Graph {
        nodes,
        next_id,
        show_shading,
        shading_opacity: Rat { num: op_num, den: op_den },
        show_std_markers,
        plot_bounds: None,
    };
    proof {
        assert(toks@.subrange(0, idx as int) =~= toks@);
        assert(toks@ =~= spec_tokens(g));
    }
    Ok(g)
}

/// Two stores agree on their first `i` node blocks.
pub open spec fn spec_nodes_tokens_agrees(a: Seq<Distribution>, b: Seq<Distribution>, i: int) -> bool {
    spec_nodes_tokens(a, i) == spec_nodes_tokens(b, i)
}

/// Node blocks depend only on the nodes they serialize: a store extended at
/// the end keeps its earlier blocks.
proof fn lemma_nodes_tokens_prefix(a: Seq<Distribution>, b: Seq<Distribution>, i: int)
    requires
        0 <= i <= a.len(),
        i <= b.len(),
        forall|t: int| 0 <= t < i ==> #[trigger] a[t] == b[t],
    ensures
        spec_nodes_tokens(a, i) == spec_nodes_tokens(b, i),
    decreases i,
{
    if i > 0 {
        lemma_nodes_tokens_prefix(a, b, i - 1);
    }
}

/// A machine-sized snapshot: at most a million nodes, each with at most a
/// million parents and a label of at most a million characters.  Every
/// snapshot the engine itself can build in memory is far below these bounds.
pub open spec fn snapshot_sized(g: Graph) -> bool {
    &&& g.nodes@.len() <= 1000000
    &&& forall|i: int|
        0 <= i < g.nodes@.len() ==> (#[trigger] g.nodes@[i]).parent_ids@.len() <= 1000000
    &&& forall|i: int| 0 <= i < g.nodes@.len() ==> (#[trigger] g.nodes@[i]).name@.len() <= 1000000
}

/// Two tokens carrying the same content: equal numbers, or labels with the
/// same text.
pub open spec fn token_eqv(a: Token, b: Token) -> bool {
    match (a, b) {
        (Token::Num(x), Token::Num(y)) => x == y,
        (Token::Text(x), Token::Text(y)) => x@ == y@,
        _ => false,
    }
}

/// Two streams carrying the same content, token for token.  Re-parsing a
/// rendered stream rebuilds its labels afresh, so the streams around the
/// text layer agree in this sense rather than as values.
pub open spec fn tokens_match(a: Seq<Token>, b: Seq<Token>) -> bool {
    a.len() == b.len() && forall|i: int| 0 <= i < a.len() ==> token_eqv(#[trigger] a[i], b[i])
}


/// Every node block holds between 8 and 1000008 tokens.
proof fn lemma_nodes_tokens_bounds(s: Seq<Distribution>, m: int)
    requires
        0 <= m <= s.len(),
        forall|i: int| 0 <= i < m ==> (#[trigger] s[i]).parent_ids@.len() <= 1000000,
    ensures
        8 * m <= spec_nodes_tokens(s, m).len() <= 1000008 * m,
    decreases m,
{
    if m > 0 {
        lemma_nodes_tokens_bounds(s, m - 1);
        assert(spec_node_tokens(s[m - 1]).len() == 8 + s[m - 1].parent_ids@.len());
    }
}

/// Earlier blocks are a prefix of later ones.
proof fn lemma_nodes_tokens_take(s: Seq<Distribution>, k: int, m: int)
    requires
        0 <= k <= m <= s.len(),
    ensures
        spec_nodes_tokens(s, k).len() <= spec_nodes_tokens(s, m).len(),
        forall|t: int|
            0 <= t < spec_nodes_tokens(s, k).len() ==> #[trigger] spec_nodes_tokens(s, m)[t]
                == spec_nodes_tokens(s, k)[t],
    decreases m,
{
    if m > k {
        lemma_nodes_tokens_take(s, k, m - 1);
    }
}

/// Under a valid encoding the six header tokens are pinned, and the stream
/// length is the header plus the blocks.
proof fn lemma_header_pinned(toks: Seq<Token>, g0: Graph)
    requires
        g0.wf(),
        snapshot_sized(g0),
        tokens_match(toks, spec_tokens(g0)),
    ensures
        toks.len() == 6 + spec_nodes_tokens(g0.nodes@, g0.nodes@.len() as int).len(),
        6 + 8 * g0.nodes@.len() <= toks.len() <= 6 + 1000008 * g0.nodes@.len(),
        toks.len() <= 0x7fff_ffff_ffff_ffff,
        toks[0] == bool_num(g0.show_shading),
        toks[1] == Token::Num(g0.shading_opacity.num),
        toks[2] == Token::Num(g0.shading_opacity.den),
        toks[3] == bool_num(g0.show_std_markers),
        toks[4] == Token::Num(g0.next_id as i64),
        toks[5] == Token::Num(g0.nodes@.len() as i64),
{
    lemma_nodes_tokens_bounds(g0.nodes@, g0.nodes@.len() as int);
    assert(1000008 * g0.nodes@.len() <= 1000008 * 1000000) by (nonlinear_arith)
        requires
            g0.nodes@.len() <= 1000000,
    ;
    let w = spec_tokens(g0);
    assert(token_eqv(toks[0], w[0]) && token_eqv(toks[1], w[1]) && token_eqv(toks[2], w[2])
        && token_eqv(toks[3], w[3]) && token_eqv(toks[4], w[4]) && token_eqv(toks[5], w[5]));
    assert(w[0] == bool_num(g0.show_shading) && w[1] == Token::Num(g0.shading_opacity.num)
        && w[2] == Token::Num(g0.shading_opacity.den) && w[3] == bool_num(g0.show_std_markers)
        && w[4] == Token::Num(g0.next_id as i64) && w[5] == Token::Num(g0.nodes@.len() as i64));
}

/// Under a valid encoding the tokens of the block at position `k` are
/// pinned, starting right where the previous blocks end.
proof fn lemma_block_pinned(toks: Seq<Token>, g0: Graph, k: int, idx: int)
    requires
        g0.wf(),
        snapshot_sized(g0),
        tokens_match(toks, spec_tokens(g0)),
        0 <= k < g0.nodes@.len(),
        idx == 6 + spec_nodes_tokens(g0.nodes@, k).len(),
    ensures
        ({
            let d = g0.nodes@[k];
            let p = d.parent_ids@.len() as int;
            &&& idx + 8 + p <= toks.len()
            &&& idx + 8 + p == 6 + spec_nodes_tokens(g0.nodes@, k + 1).len()
            &&& toks[idx] == Token::Num(d.id as i64)
            &&& toks[idx + 1] == Token::Num(d.mean.num)
            &&& toks[idx + 2] == Token::Num(d.mean.den)
            &&& toks[idx + 3] == Token::Num(d.std_dev.num)
            &&& toks[idx + 4] == Token::Num(d.std_dev.den)
            &&& toks[idx + 5] == bool_num(d.is_product)
            &&& toks[idx + 6] == Token::Num(p as i64)
            &&& (forall|t: int|
                0 <= t < p ==> toks[idx + 7 + t] == Token::Num(
                    (#[trigger] d.parent_ids@[t]) as i64,
                ))
            &&& (toks[idx + 7 + p] matches Token::Text(nm) && nm@ == d.name@)
        }),
{
    let n = g0.nodes@.len() as int;
    let d = g0.nodes@[k];
    let p = d.parent_ids@.len() as int;
    let blk = spec_node_tokens(d);
    let pre = spec_nodes_tokens(g0.nodes@, k).len() as int;
    assert(blk.len() == 8 + p);
    assert(spec_nodes_tokens(g0.nodes@, k + 1) == spec_nodes_tokens(g0.nodes@, k) + blk);
    lemma_nodes_tokens_take(g0.nodes@, k + 1, n);
    lemma_header_pinned(toks, g0);
    assert forall|t: int| 0 <= t < blk.len() implies token_eqv(toks[idx + t], blk[t]) by {
        assert(spec_nodes_tokens(g0.nodes@, n)[pre + t] == spec_nodes_tokens(
            g0.nodes@,
            k + 1,
        )[pre + t]);
        assert(spec_nodes_tokens(g0.nodes@, k + 1)[pre + t] == blk[t]);
        assert(spec_tokens(g0)[6 + (pre + t)] == spec_nodes_tokens(g0.nodes@, n)[pre + t]);
        assert(token_eqv(toks[6 + (pre + t)], spec_tokens(g0)[6 + (pre + t)]));
    }
    assert forall|t: int| 0 <= t < p implies toks[idx + 7 + t] == Token::Num(
        (#[trigger] d.parent_ids@[t]) as i64,
    ) by {
        assert(blk[7 + t] == Token::Num(d.parent_ids@[t] as i64));
        assert(token_eqv(toks[idx + (7 + t)], blk[7 + t]));
    }
    assert(token_eqv(toks[idx + 7 + p], blk[7 + p]));
    assert(blk[7 + p] == Token::Text(d.name));
    assert(token_eqv(toks[idx], blk[0]) && token_eqv(toks[idx + 1], blk[1]) && token_eqv(
        toks[idx + 2],
        blk[2],
    ) && token_eqv(toks[idx + 3], blk[3]) && token_eqv(toks[idx + 4], blk[4]) && token_eqv(
        toks[idx + 5],
        blk[5],
    ) && token_eqv(toks[idx + 6], blk[6]));
    assert(blk[0] == Token::Num(d.id as i64) && blk[1] == Token::Num(d.mean.num) && blk[2]
        == Token::Num(d.mean.den) && blk[3] == Token::Num(d.std_dev.num) && blk[4] == Token::Num(
        d.std_dev.den,
    ) && blk[5] == bool_num(d.is_product) && blk[6] == Token::Num(p as i64));
}

/// Front decomposition of the node blocks.
proof fn lemma_nodes_tokens_front(s: Seq<Distribution>, i: int)
    requires
        1 <= i <= s.len(),
    ensures
        spec_nodes_tokens(s, i) == spec_node_tokens(s[0]) + spec_nodes_tokens(
            s.drop_first(),
            i - 1,
        ),
    decreases i,
{
    if i == 1 {
        assert(spec_nodes_tokens(s, 0) =~= Seq::<Token>::empty());
        assert(spec_nodes_tokens(s.drop_first(), 0) =~= Seq::<Token>::empty());
        assert(spec_nodes_tokens(s, 1) == spec_nodes_tokens(s, 0) + spec_node_tokens(s[0]));
        assert(spec_nodes_tokens(s, 1) =~= spec_node_tokens(s[0]) + spec_nodes_tokens(
            s.drop_first(),
            0,
        ));
    } else {
        lemma_nodes_tokens_front(s, i - 1);
        assert(s.drop_first()[i - 2] == s[i - 1]);
        assert(spec_nodes_tokens(s.drop_first(), i - 1) == spec_nodes_tokens(
            s.drop_first(),
            i - 2,
        ) + spec_node_tokens(s.drop_first()[i - 2]));
        assert(spec_nodes_tokens(s, i) =~= spec_node_tokens(s[0]) + spec_nodes_tokens(
            s.drop_first(),
            i - 1,
        ));
    }
}

/// Matching concatenations of node blocks come from field-for-field equal
/// nodes: a node block's length is pinned by its own parent-count field, so
/// matching streams split at the same boundaries.
proof fn lemma_blocks_inj(s1: Seq<Distribution>, s2: Seq<Distribution>, n: int)
    requires
        0 <= n <= s1.len(),
        n <= s2.len(),
        forall|i: int| 0 <= i < n ==> (#[trigger] s1[i]).parent_ids@.len() <= i64::MAX,
        forall|i: int| 0 <= i < n ==> (#[trigger] s2[i]).parent_ids@.len() <= i64::MAX,
        tokens_match(spec_nodes_tokens(s1, n), spec_nodes_tokens(s2, n)),
    ensures
        forall|i: int| 0 <= i < n ==> (#[trigger] s1[i]).eqv(s2[i]),
    decreases n,
{
    if n > 0 {
        lemma_nodes_tokens_front(s1, n);
        lemma_nodes_tokens_front(s2, n);
        let a1 = spec_node_tokens(s1[0]);
        let a2 = spec_node_tokens(s2[0]);
        let r1 = spec_nodes_tokens(s1.drop_first(), n - 1);
        let r2 = spec_nodes_tokens(s2.drop_first(), n - 1);
        let w = a1 + r1;
        let w2 = a2 + r2;
        assert(tokens_match(w, w2));
        let p1 = s1[0].parent_ids@.len() as int;
        let p2 = s2[0].parent_ids@.len() as int;
        assert(a1.len() == 8 + p1 && a2.len() == 8 + p2);
        assert(w[6] == a1[6] && w2[6] == a2[6]);
        assert(a1[6] == Token::Num(s1[0].parent_ids@.len() as i64));
        assert(a2[6] == Token::Num(s2[0].parent_ids@.len() as i64));
        assert(token_eqv(w[6], w2[6]));
        assert(s1[0].parent_ids@.len() as i64 == s2[0].parent_ids@.len() as i64);
        assert(p1 == p2);
        assert(a1.len() == a2.len());
        assert forall|t: int| 0 <= t < a1.len() implies token_eqv(a1[t], a2[t]) by {
            assert(w[t] == a1[t] && w2[t] == a2[t]);
            assert(token_eqv(w[t], w2[t]));
        }
        assert(s1[0].eqv(s2[0])) by {
            assert(a1[0] == Token::Num(s1[0].id as i64) && a2[0] == Token::Num(s2[0].id as i64));
            assert(token_eqv(a1[0], a2[0]));
            assert(a1[1] == Token::Num(s1[0].mean.num) && a1[2] == Token::Num(s1[0].mean.den));
            assert(a2[1] == Token::Num(s2[0].mean.num) && a2[2] == Token::Num(s2[0].mean.den));
            assert(token_eqv(a1[1], a2[1]) && token_eqv(a1[2], a2[2]));
            assert(a1[3] == Token::Num(s1[0].std_dev.num) && a1[4] == Token::Num(
                s1[0].std_dev.den,
            ));
            assert(a2[3] == Token::Num(s2[0].std_dev.num) && a2[4] == Token::Num(
                s2[0].std_dev.den,
            ));
            assert(token_eqv(a1[3], a2[3]) && token_eqv(a1[4], a2[4]));
            assert(a1[5] == bool_num(s1[0].is_product) && a2[5] == bool_num(s2[0].is_product));
            assert(token_eqv(a1[5], a2[5]));
            assert(s1[0].is_product == s2[0].is_product);
            assert(s1[0].mean == s2[0].mean && s1[0].std_dev == s2[0].std_dev);
            assert forall|t: int| 0 <= t < p1 implies s1[0].parent_ids@[t] == s2[0].parent_ids@[t]
                by {
                assert(a1[7 + t] == Token::Num(s1[0].parent_ids@[t] as i64));
                assert(a2[7 + t] == Token::Num(s2[0].parent_ids@[t] as i64));
                assert(token_eqv(a1[7 + t], a2[7 + t]));
            }
            assert(s1[0].parent_ids@ =~= s2[0].parent_ids@);
            assert(a1[7 + p1] == Token::Text(s1[0].name) && a2[7 + p2] == Token::Text(
                s2[0].name,
            ));
            assert(token_eqv(a1[7 + p1], a2[7 + p2]));
            assert(s1[0].name@ == s2[0].name@);
        }
        assert(r1.len() == r2.len());
        assert forall|t: int| 0 <= t < r1.len() implies token_eqv(#[trigger] r1[t], r2[t]) by {
            assert(r1[t] == w[a1.len() + t] && r2[t] == w2[a2.len() + t]);
            assert(token_eqv(w[a1.len() + t], w2[a1.len() + t]));
        }
        assert(tokens_match(r1, r2));
        assert forall|i: int| 0 <= i < n - 1 implies (#[trigger] s1.drop_first()[
            i
        ]).parent_ids@.len() <= i64::MAX && s2.drop_first()[i].parent_ids@.len() <= i64::MAX by {
            assert(s1.drop_first()[i] == s1[i + 1] && s2.drop_first()[i] == s2[i + 1]);
        }
        lemma_blocks_inj(s1.drop_first(), s2.drop_first(), n - 1);
        assert forall|i: int| 0 <= i < n implies (#[trigger] s1[i]).eqv(s2[i]) by {
            if i > 0 {
                assert(s1.drop_first()[i - 1].eqv(s2.drop_first()[i - 1]));
                assert(s1.drop_first()[i - 1] == s1[i] && s2.drop_first()[i - 1] == s2[i]);
            }
        }
    }
}

/// Snapshots are lossless: two graphs whose token streams carry the same
/// content agree on every flag, on the allocation counter, and field for
/// field on every node.  Together with the decoder's contract — a
/// successful decode returns a graph whose encoding is the input, and every
/// valid encoding is accepted — a decoded snapshot restores exactly the
/// state that was encoded.
pub proof fn law_snapshot_round_trip(g0: Graph, g: Graph)
    requires
        tokens_match(spec_tokens(g), spec_tokens(g0)),
        g.nodes@.len() <= i64::MAX,
        g0.nodes@.len() <= i64::MAX,
        forall|i: int|
            0 <= i < g.nodes@.len() ==> (#[trigger] g.nodes@[i]).parent_ids@.len() <= i64::MAX,
        forall|i: int|
            0 <= i < g0.nodes@.len() ==> (#[trigger] g0.nodes@[i]).parent_ids@.len()
                <= i64::MAX,
    ensures
        g.show_shading == g0.show_shading,
        g.shading_opacity == g0.shading_opacity,
        g.show_std_markers == g0.show_std_markers,
        g.next_id == g0.next_id,
        g.nodes@.len() == g0.nodes@.len(),
        forall|i: int| 0 <= i < g.nodes@.len() ==> (#[trigger] g.nodes@[i]).eqv(g0.nodes@[i]),
{
    let w = spec_tokens(g);
    let w0 = spec_tokens(g0);
    assert(w[0] == bool_num(g.show_shading) && w0[0] == bool_num(g0.show_shading));
    assert(w[1] == Token::Num(g.shading_opacity.num));
    assert(w[2] == Token::Num(g.shading_opacity.den));
    assert(w[3] == bool_num(g.show_std_markers));
    assert(w[4] == Token::Num(g.next_id as i64));
    assert(w[5] == Token::Num(g.nodes@.len() as i64));
    assert(w0[1] == Token::Num(g0.shading_opacity.num));
    assert(w0[2] == Token::Num(g0.shading_opacity.den));
    assert(w0[3] == bool_num(g0.show_std_markers));
    assert(w0[4] == Token::Num(g0.next_id as i64));
    assert(w0[5] == Token::Num(g0.nodes@.len() as i64));
    assert(token_eqv(w[0], w0[0]) && token_eqv(w[1], w0[1]) && token_eqv(w[2], w0[2])
        && token_eqv(w[3], w0[3]) && token_eqv(w[4], w0[4]) && token_eqv(w[5], w0[5]));
    assert(g.nodes@.len() as i64 == g0.nodes@.len() as i64);
    assert(g.nodes@.len() == g0.nodes@.len());
    let n = g.nodes@.len() as int;
    let b1 = spec_nodes_tokens(g.nodes@, n);
    let b2 = spec_nodes_tokens(g0.nodes@, n);
    assert(w.len() == 6 + b1.len() && w0.len() == 6 + b2.len());
    assert forall|t: int| 0 <= t < b1.len() implies token_eqv(#[trigger] b1[t], b2[t]) by {
        assert(b1[t] == w[6 + t] && b2[t] == w0[6 + t]);
        assert(token_eqv(w[6 + t], w0[6 + t]));
    }
    assert(tokens_match(b1, b2));
    lemma_blocks_inj(g.nodes@, g0.nodes@, n);
}

/// Every malformed snapshot is reported with this one message.
pub open spec fn decode_failure(e: EngineError) -> bool {
    e matches EngineError::DecodeError { message } && message@ == "Failed to parse session snapshot"@
}

/// A fresh decode error carrying the message every malformed snapshot
/// reports.
fn decode_error() -> (e: EngineError)
    ensures
        e is DecodeError,
        decode_failure(e),
{
    EngineError::DecodeError { message: String::from_str("Failed to parse session snapshot") }
}

/// The numeric token at `idx`, if there is one.
fn read_num(toks: &Vec<Token>, idx: usize) -> (r: Option<i64>)
    ensures
        r matches Some(v) ==> idx < toks@.len() && toks@[idx as int] == Token::Num(v),
        r is None ==> idx >= toks@.len() || !(toks@[idx as int] is Num),
{
    if idx >= toks.len() {
        return None;
    }
    match &toks[idx] {
        Token::Num(v) => Some(*v),
        Token::Text(_) => None,
    }
}

/// The boolean token (`0` or `1`) at `idx`, if there is one.
fn read_flag(toks: &Vec<Token>, idx: usize) -> (r: Option<bool>)
    ensures
        r matches Some(b) ==> idx < toks@.len() && toks@[idx as int] == bool_num(b),
        r is None ==> idx >= toks@.len() || !(toks@[idx as int] matches Token::Num(v) && (v == 0
            || v == 1)),
{
    if idx >= toks.len() {
        return None;
    }
    match &toks[idx] {
        Token::Num(v) => {
            if *v == 1 {
                Some(true)
            } else if *v == 0 {
                Some(false)
            } else {
                None
            }
        },
        Token::Text(_) => None,
    }
}

/// The text token at `idx`, if there is one; the label is copied out.
fn read_text(toks: &Vec<Token>, idx: usize) -> (r: Option<String>)
    ensures
        r matches Some(s) ==> idx < toks@.len() && toks@[idx as int] == Token::Text(s),
        r is None ==> idx >= toks@.len() || !(toks@[idx as int] is Text),
{
    if idx >= toks.len() {
        return None;
    }
    match &toks[idx] {
        Token::Num(_) => None,
        Token::Text(s) => Some(s.clone()),
    }
}

/// The character of one decimal digit.
pub open spec fn digit_char(d: nat) -> char {
    if d == 0 {
        '0'
    } else if d == 1 {
        '1'
    } else if d == 2 {
        '2'
    } else if d == 3 {
        '3'
    } else if d == 4 {
        '4'
    } else if d == 5 {
        '5'
    } else if d == 6 {
        '6'
    } else if d == 7 {
        '7'
    } else if d == 8 {
        '8'
    } else {
        '9'
    }
}

/// The decimal digits of a natural number, most significant first.
pub open spec fn dec_digits(v: nat) -> Seq<char>
    decreases v,
{
    if v < 10 {
        seq![digit_char(v)]
    } else {
        dec_digits(v / 10).push(digit_char(v % 10))
    }
}

/// The rendering of a signed number.
pub open spec fn dec_int(v: int) -> Seq<char> {
    if v < 0 {
        seq!['-'] + dec_digits((-v) as nat)
    } else {
        dec_digits(v as nat)
    }
}

/// The rendering of one token: a number and a space, or `#`, a character
/// count, a space, the raw label characters and a space.
pub open spec fn spec_render_token(t: Token) -> Seq<char> {
    match t {
        Token::Num(v) => dec_int(v as int) + seq![' '],
        Token::Text(s) => seq!['#'] + dec_digits(s@.len()) + seq![' '] + s@ + seq![' '],
    }
}

/// The rendering of the first `i` tokens.
pub open spec fn spec_render(toks: Seq<Token>, i: int) -> Seq<char>
    decreases i,
{
    if i <= 0 {
        Seq::empty()
    } else {
        spec_render(toks, i - 1) + spec_render_token(toks[i - 1])
    }
}

/// Append one decimal digit.
fn append_digit(out: &mut String, d: u64)
    requires
        d < 10,
    ensures
        final(out)@ == old(out)@ + seq![digit_char(d as nat)],
{
    proof {
        reveal_strlit("0");
        reveal_strlit("1");
        reveal_strlit("2");
        reveal_strlit("3");
        reveal_strlit("4");
        reveal_strlit("5");
        reveal_strlit("6");
        reveal_strlit("7");
        reveal_strlit("8");
        reveal_strlit("9");
    }
    if d == 0 {
        out.append("0");
    } else if d == 1 {
        out.append("1");
    } else if d == 2 {
        out.append("2");
    } else if d == 3 {
        out.append("3");
    } else if d == 4 {
        out.append("4");
    } else if d == 5 {
        out.append("5");
    } else if d == 6 {
        out.append("6");
    } else if d == 7 {
        out.append("7");
    } else if d == 8 {
        out.append("8");
    } else {
        out.append("9");
    }
}

/// Append the decimal digits of a number.
fn append_u64(out: &mut String, v: u64)
    ensures
        final(out)@ == old(out)@ + dec_digits(v as nat),
    decreases v,
{
    if v >= 10 {
        append_u64(out, v / 10);
        append_digit(out, v % 10);
        proof {
            assert(final(out)@ =~= old(out)@ + dec_digits(v as nat));
        }
    } else {
        append_digit(out, v % 10);
        proof {
            assert(v % 10 == v as nat);
            assert(final(out)@ =~= old(out)@ + dec_digits(v as nat));
        }
    }
}

/// Append a signed number.
fn append_i64(out: &mut String, v: i64)
    ensures
        final(out)@ == old(out)@ + dec_int(v as int),
{
    if v < 0 {
        out.append("-");
        let m: u64 = (-(v as i128)) as u64;
        append_u64(out, m);
        proof {
            reveal_strlit("-");
            assert("-"@ =~= seq!['-']);
            assert(final(out)@ =~= old(out)@ + dec_int(v as int));
        }
    } else {
        append_u64(out, v as u64);
    }
}

/// Render a token stream as one line of space-separated fields: numbers as
/// decimal, labels as `#` plus a character count, a space, and the raw
/// characters.
fn render_tokens(toks: &Vec<Token>) -> (r: String)
    ensures
        r@ == spec_render(toks@, toks@.len() as int),
{
    let mut out = String::new();
    let mut i: usize = 0;
    while i < toks.len()
        invariant
            0 <= i <= toks@.len(),
            out@ == spec_render(toks@, i as int),
        decreases toks@.len() - i,
    {
        match &toks[i] {
            Token::Num(v) => {
                append_i64(&mut out, *v);
                out.append(" ");
                proof {
                    reveal_strlit(" ");
                    assert(" "@ =~= seq![' ']);
                    assert(out@ =~= spec_render(toks@, i + 1));
                }
            },
            Token::Text(t) => {
                out.append("#");
                append_u64(&mut out, t.as_str().unicode_len() as u64);
                out.append(" ");
                out.append(t.as_str());
                out.append(" ");
                proof {
                    reveal_strlit("#");
                    reveal_strlit(" ");
                    assert("#"@ =~= seq!['#']);
                    assert(" "@ =~= seq![' ']);
                    assert(out@ =~= spec_render(toks@, i + 1));
                }
            },
        }
        i = i + 1;
    }
    out
}

/// The numeric value of a decimal digit character, if it is one.
pub open spec fn spec_digit(c: char) -> Option<u64> {
    if c == '0' {
        Some(0u64)
    } else if c == '1' {
        Some(1u64)
    } else if c == '2' {
        Some(2u64)
    } else if c == '3' {
        Some(3u64)
    } else if c == '4' {
        Some(4u64)
    } else if c == '5' {
        Some(5u64)
    } else if c == '6' {
        Some(6u64)
    } else if c == '7' {
        Some(7u64)
    } else if c == '8' {
        Some(8u64)
    } else if c == '9' {
        Some(9u64)
    } else {
        None
    }
}

/// The value of a decimal digit character.
fn digit_val(c: char) -> (r: Option<u64>)
    ensures
        r == spec_digit(c),
        r matches Some(v) ==> v < 10,
{
    if c == '0' {
        Some(0)
    } else if c == '1' {
        Some(1)
    } else if c == '2' {
        Some(2)
    } else if c == '3' {
        Some(3)
    } else if c == '4' {
        Some(4)
    } else if c == '5' {
        Some(5)
    } else if c == '6' {
        Some(6)
    } else if c == '7' {
        Some(7)
    } else if c == '8' {
        Some(8)
    } else if c == '9' {
        Some(9)
    } else {
        None
    }
}

/// The numeric value of a digit string, most significant digit first.
pub open spec fn digits_val(ds: Seq<char>) -> nat
    decreases ds.len(),
{
    if ds.len() == 0 {
        0
    } else {
        digits_val(ds.drop_last()) * 10 + (spec_digit(ds.last())->Some_0 as nat)
    }
}

/// The digits of a number: at least one, every one a digit character, and
/// reading them back yields the number.
proof fn lemma_dec_digits_facts(m: nat)
    ensures
        dec_digits(m).len() >= 1,
        forall|k: int|
            0 <= k < dec_digits(m).len() ==> spec_digit(#[trigger] dec_digits(m)[k]) is Some,
        digits_val(dec_digits(m)) == m,
    decreases m,
{
    if m < 10 {
        assert(dec_digits(m) == seq![digit_char(m)]);
        assert(spec_digit(digit_char(m)) == Some(m as u64));
        assert(dec_digits(m).drop_last() =~= Seq::<char>::empty());
        assert(dec_digits(m).len() == 1);
        assert(dec_digits(m).last() == digit_char(m));
        assert(digits_val(Seq::<char>::empty()) == 0);
        assert(digits_val(dec_digits(m)) == digits_val(dec_digits(m).drop_last()) * 10 + (
        spec_digit(dec_digits(m).last())->Some_0 as nat));
    } else {
        lemma_dec_digits_facts(m / 10);
        let pre = dec_digits(m / 10);
        assert(dec_digits(m) == pre.push(digit_char(m % 10)));
        assert(spec_digit(digit_char(m % 10)) == Some((m % 10) as u64));
        assert forall|k: int|
            0 <= k < dec_digits(m).len() implies spec_digit(#[trigger] dec_digits(m)[k])
            is Some by {
            if k < pre.len() {
                assert(dec_digits(m)[k] == pre[k]);
            } else {
                assert(dec_digits(m)[k] == digit_char(m % 10));
            }
        }
        assert(dec_digits(m).drop_last() =~= pre);
        vstd::arithmetic::div_mod::lemma_fundamental_div_mod(m as int, 10);
        assert(digits_val(dec_digits(m)) == (m / 10) * 10 + m % 10);
    }
}

/// A prefix of a digit string never exceeds the whole string's value.
proof fn lemma_digits_val_prefix_le(ds: Seq<char>, j: int)
    requires
        0 <= j <= ds.len(),
    ensures
        digits_val(ds.take(j)) <= digits_val(ds),
    decreases ds.len() - j,
{
    if j < ds.len() {
        lemma_digits_val_prefix_le(ds, j + 1);
        assert(ds.take(j + 1).drop_last() =~= ds.take(j));
        assert(ds.take(j + 1).last() == ds[j]);
        assert(digits_val(ds.take(j + 1)) == digits_val(ds.take(j)) * 10 + (spec_digit(
            ds[j],
        )->Some_0 as nat));
        assert(digits_val(ds.take(j)) * 10 >= digits_val(ds.take(j))) by (nonlinear_arith);
    } else {
        assert(ds.take(j) =~= ds);
    }
}

/// Read an unsigned number up to its terminating space.
///
/// Parsing inverts rendering: wherever the text carries the digits of a
/// number up to `2^63` followed by a space, the read returns exactly that
/// number and stops right after the space.
fn parse_u64_at(s: &str, pos: usize, n: usize) -> (r: Result<(u64, usize), EngineError>)
    requires
        pos <= n,
        n == s@.len(),
    ensures
        r matches Ok(vp) ==> pos < vp.1 <= n,
        r matches Err(e) ==> decode_failure(e),
        forall|m: nat|
            (m <= 9223372036854775808 && pos + (#[trigger] dec_digits(m)).len() + 1 <= s@.len()
                && s@.subrange(pos as int, pos + dec_digits(m).len()) == dec_digits(m) && s@[pos
                + dec_digits(m).len()] == ' ') ==> (r matches Ok(vp) && vp.0 == m && vp.1 == pos
                + dec_digits(m).len() + 1),
{
    let mut p = pos;
    let mut acc: u64 = 0;
    let mut seen = false;
    while p < n
        invariant
            pos <= p <= n,
            n == s@.len(),
            seen == (p > pos),
            forall|m: nat|
                (m <= 9223372036854775808 && pos + (#[trigger] dec_digits(m)).len() + 1
                    <= s@.len() && s@.subrange(pos as int, pos + dec_digits(m).len())
                    == dec_digits(m) && s@[pos + dec_digits(m).len()] == ' ') ==> (p <= pos
                    + dec_digits(m).len() && acc == digits_val(dec_digits(m).take(p - pos))),
        decreases n - p,
    {
        let c = s.get_char(p);
        if c == ' ' {
            if !seen {
                proof {
                    assert forall|m: nat|
                        !(m <= 9223372036854775808 && pos + (#[trigger] dec_digits(m)).len() + 1
                            <= s@.len() && s@.subrange(pos as int, pos + dec_digits(m).len())
                            == dec_digits(m) && s@[pos + dec_digits(m).len()] == ' ') by {
                        if m <= 9223372036854775808 && pos + dec_digits(m).len() + 1 <= s@.len()
                            && s@.subrange(pos as int, pos + dec_digits(m).len()) == dec_digits(
                            m,
                        ) && s@[pos + dec_digits(m).len()] == ' ' {
                            lemma_dec_digits_facts(m);
                            assert(s@[pos as int] == dec_digits(m)[0]);
                            assert(spec_digit(' ') is None);
                            assert(false);
                        }
                    }
                }
                return Err(decode_error());
            }
            proof {
                assert forall|m: nat|
                    (m <= 9223372036854775808 && pos + (#[trigger] dec_digits(m)).len() + 1
                        <= s@.len() && s@.subrange(pos as int, pos + dec_digits(m).len())
                        == dec_digits(m) && s@[pos + dec_digits(m).len()] == ' ') implies (acc
                    == m && p == pos + dec_digits(m).len()) by {
                    lemma_dec_digits_facts(m);
                    if p < pos + dec_digits(m).len() {
                        assert(s@[p as int] == dec_digits(m)[p - pos]);
                        assert(spec_digit(' ') is None);
                        assert(false);
                    }
                    assert(p == pos + dec_digits(m).len());
                    assert(dec_digits(m).take(p - pos) =~= dec_digits(m));
                }
            }
            return Ok((acc, p + 1));
        }
        let d = match digit_val(c) {
            Some(d) => d,
            None => {
                proof {
                    assert forall|m: nat|
                        !(m <= 9223372036854775808 && pos + (#[trigger] dec_digits(m)).len() + 1
                            <= s@.len() && s@.subrange(pos as int, pos + dec_digits(m).len())
                            == dec_digits(m) && s@[pos + dec_digits(m).len()] == ' ') by {
                        if m <= 9223372036854775808 && pos + dec_digits(m).len() + 1 <= s@.len()
                            && s@.subrange(pos as int, pos + dec_digits(m).len()) == dec_digits(
                            m,
                        ) && s@[pos + dec_digits(m).len()] == ' ' {
                            lemma_dec_digits_facts(m);
                            if p < pos + dec_digits(m).len() {
                                assert(s@[p as int] == dec_digits(m)[p - pos]);
                            }
                            assert(false);
                        }
                    }
                }
                return Err(decode_error());
            },
        };
        if acc > 922337203685477580 {
            proof {
                assert forall|m: nat|
                    !(m <= 9223372036854775808 && pos + (#[trigger] dec_digits(m)).len() + 1
                        <= s@.len() && s@.subrange(pos as int, pos + dec_digits(m).len())
                        == dec_digits(m) && s@[pos + dec_digits(m).len()] == ' ') by {
                    if m <= 9223372036854775808 && pos + dec_digits(m).len() + 1 <= s@.len()
                        && s@.subrange(pos as int, pos + dec_digits(m).len()) == dec_digits(m)
                        && s@[pos + dec_digits(m).len()] == ' ' {
                        lemma_dec_digits_facts(m);
                        let ds = dec_digits(m);
                        if p < pos + ds.len() {
                            let j = p - pos;
                            lemma_digits_val_prefix_le(ds, j + 1);
                            assert(ds.take(j + 1).drop_last() =~= ds.take(j));
                            assert(ds.take(j + 1).last() == ds[j]);
                            assert(digits_val(ds.take(j + 1)) == digits_val(ds.take(j)) * 10 + (
                            spec_digit(ds[j])->Some_0 as nat));
                            assert(digits_val(ds.take(j)) * 10 <= digits_val(ds.take(j + 1)));
                            assert(acc * 10 <= m);
                        } else {
                            assert(s@[p as int] == ' ');
                        }
                        assert(false);
                    }
                }
            }
            return Err(decode_error());
        }
        let ghost old_acc = acc;
        let ghost old_p = p as int;
        acc = acc * 10 + d;
        seen = true;
        p = p + 1;
        proof {
            assert forall|m: nat|
                (m <= 9223372036854775808 && pos + (#[trigger] dec_digits(m)).len() + 1
                    <= s@.len() && s@.subrange(pos as int, pos + dec_digits(m).len())
                    == dec_digits(m) && s@[pos + dec_digits(m).len()] == ' ') implies (p <= pos
                    + dec_digits(m).len() && acc == digits_val(dec_digits(m).take(p - pos))) by {
                lemma_dec_digits_facts(m);
                let ds = dec_digits(m);
                if old_p >= pos + ds.len() {
                    assert(s@[old_p] == ' ');
                    assert(false);
                }
                let j = old_p - pos;
                assert(s@[old_p] == ds[j]);
                assert(d == spec_digit(ds[j])->Some_0);
                assert(ds.take(j + 1).drop_last() =~= ds.take(j));
                assert(ds.take(j + 1).last() == ds[j]);
                assert(digits_val(ds.take(j + 1)) == digits_val(ds.take(j)) * 10 + (spec_digit(
                    ds[j],
                )->Some_0 as nat));
                assert(old_acc == digits_val(ds.take(j)));
            }
        }
    }
    proof {
        assert forall|m: nat|
            !(m <= 9223372036854775808 && pos + (#[trigger] dec_digits(m)).len() + 1 <= s@.len()
                && s@.subrange(pos as int, pos + dec_digits(m).len()) == dec_digits(m) && s@[pos
                + dec_digits(m).len()] == ' ') by {
            if m <= 9223372036854775808 && pos + dec_digits(m).len() + 1 <= s@.len()
                && s@.subrange(pos as int, pos + dec_digits(m).len()) == dec_digits(m) && s@[pos
                + dec_digits(m).len()] == ' ' {
                assert(p <= pos + dec_digits(m).len());
                assert(pos + dec_digits(m).len() + 1 <= n);
                assert(false);
            }
        }
    }
    Err(decode_error())
}

/// Read a signed number up to its terminating space.
///
/// Parsing inverts rendering: wherever the text carries the rendering of a
/// 64-bit signed number followed by a space, the read returns exactly that
/// number and stops right after the space.
fn parse_i64_at(s: &str, pos: usize, n: usize) -> (r: Result<(i64, usize), EngineError>)
    requires
        pos <= n,
        n == s@.len(),
    ensures
        r matches Ok(vp) ==> pos < vp.1 <= n,
        r matches Err(e) ==> decode_failure(e),
        forall|v: int|
            (-9223372036854775808 <= v <= 9223372036854775807 && pos + (
            #[trigger] dec_int(v)).len() + 1 <= s@.len() && s@.subrange(
                pos as int,
                pos + dec_int(v).len(),
            ) == dec_int(v) && s@[pos + dec_int(v).len()] == ' ') ==> (r matches Ok(vp) && vp.0
                == v && vp.1 == pos + dec_int(v).len() + 1),
{
    if pos < n && s.get_char(pos) == '-' {
        let (m, p) = match parse_u64_at(s, pos + 1, n) {
            Ok(vp) => vp,
            Err(e) => {
                proof {
                    lemma_neg_case_excluded(s@, pos as int, n as int);
                }
                return Err(e);
            },
        };
        if m > 9223372036854775808u64 {
            proof {
                lemma_neg_case_excluded(s@, pos as int, n as int);
            }
            return Err(decode_error());
        }
        let v: i64 = if m == 9223372036854775808u64 {
            i64::MIN
        } else {
            -(m as i64)
        };
        proof {
            lemma_neg_case_excluded(s@, pos as int, n as int);
        }
        Ok((v, p))
    } else {
        let (m, p) = match parse_u64_at(s, pos, n) {
            Ok(vp) => vp,
            Err(e) => {
                proof {
                    lemma_pos_case_excluded(s@, pos as int, n as int);
                }
                return Err(e);
            },
        };
        if m > i64::MAX as u64 {
            proof {
                lemma_pos_case_excluded(s@, pos as int, n as int);
            }
            return Err(decode_error());
        }
        proof {
            lemma_pos_case_excluded(s@, pos as int, n as int);
        }
        Ok((m as i64, p))
    }
}

/// A negative rendering starts with the minus sign; the digits of its
/// magnitude follow one position later.
proof fn lemma_neg_case_excluded(t: Seq<char>, pos: int, n: int)
    requires
        0 <= pos <= n,
        n == t.len(),
    ensures
        forall|v: int|
            (v < 0 && pos + (#[trigger] dec_int(v)).len() + 1 <= n && t.subrange(
                pos,
                pos + dec_int(v).len(),
            ) == dec_int(v) && t[pos + dec_int(v).len()] == ' ') ==> (t[pos] == '-'
                && pos + 1 + dec_digits((-v) as nat).len() + 1 <= n && t.subrange(
                pos + 1,
                pos + 1 + dec_digits((-v) as nat).len(),
            ) == dec_digits((-v) as nat) && t[pos + 1 + dec_digits((-v) as nat).len()] == ' '),
        forall|v: int|
            (v >= 0 && pos + (#[trigger] dec_int(v)).len() + 1 <= n && t.subrange(
                pos,
                pos + dec_int(v).len(),
            ) == dec_int(v) && t[pos + dec_int(v).len()] == ' ') ==> t[pos] != '-',
{
    assert forall|v: int|
        (v < 0 && pos + (#[trigger] dec_int(v)).len() + 1 <= n && t.subrange(
            pos,
            pos + dec_int(v).len(),
        ) == dec_int(v) && t[pos + dec_int(v).len()] == ' ') implies (t[pos] == '-' && pos + 1
        + dec_digits((-v) as nat).len() + 1 <= n && t.subrange(
        pos + 1,
        pos + 1 + dec_digits((-v) as nat).len(),
    ) == dec_digits((-v) as nat) && t[pos + 1 + dec_digits((-v) as nat).len()] == ' ') by {
        let ds = dec_digits((-v) as nat);
        assert(dec_int(v) == seq!['-'] + ds);
        assert(t[pos] == dec_int(v)[0]);
        assert(t.subrange(pos + 1, pos + 1 + ds.len()) =~= ds) by {
            assert forall|q: int| 0 <= q < ds.len() implies t.subrange(
                pos + 1,
                pos + 1 + ds.len(),
            )[q] == ds[q] by {
                assert(t[pos + 1 + q] == dec_int(v)[1 + q]);
            }
        }
    }
    assert forall|v: int|
        (v >= 0 && pos + (#[trigger] dec_int(v)).len() + 1 <= n && t.subrange(
            pos,
            pos + dec_int(v).len(),
        ) == dec_int(v) && t[pos + dec_int(v).len()] == ' ') implies t[pos] != '-' by {
        lemma_dec_digits_facts(v as nat);
        assert(dec_int(v) == dec_digits(v as nat));
        assert(t[pos] == dec_int(v)[0]);
        assert(spec_digit(dec_digits(v as nat)[0]) is Some);
        assert(spec_digit('-') is None);
    }
}

/// A non-negative rendering is the digits themselves.
proof fn lemma_pos_case_excluded(t: Seq<char>, pos: int, n: int)
    requires
        0 <= pos <= n,
        n == t.len(),
    ensures
        forall|v: int|
            (v >= 0 && pos + (#[trigger] dec_int(v)).len() + 1 <= n && t.subrange(
                pos,
                pos + dec_int(v).len(),
            ) == dec_int(v) && t[pos + dec_int(v).len()] == ' ') ==> (pos + dec_digits(
                v as nat,
            ).len() + 1 <= n && t.subrange(pos, pos + dec_digits(v as nat).len()) == dec_digits(
                v as nat,
            ) && t[pos + dec_digits(v as nat).len()] == ' '),
        forall|v: int|
            (v < 0 && pos + (#[trigger] dec_int(v)).len() + 1 <= n && t.subrange(
                pos,
                pos + dec_int(v).len(),
            ) == dec_int(v) && t[pos + dec_int(v).len()] == ' ') ==> t[pos] == '-',
{
    assert forall|v: int|
        (v < 0 && pos + (#[trigger] dec_int(v)).len() + 1 <= n && t.subrange(
            pos,
            pos + dec_int(v).len(),
        ) == dec_int(v) && t[pos + dec_int(v).len()] == ' ') implies t[pos] == '-' by {
        assert(dec_int(v) == seq!['-'] + dec_digits((-v) as nat));
        assert(t[pos] == dec_int(v)[0]);
    }
}

/// Every label token in the stream is machine-sized.
pub open spec fn tokens_sized(t: Seq<Token>) -> bool {
    forall|i: int|
        0 <= i < t.len() ==> ((#[trigger] t[i]) matches Token::Text(s) ==> s@.len() <= 1000000)
}

/// The only label tokens in node blocks are the nodes' names.
proof fn lemma_nodes_tokens_sized(s: Seq<Distribution>, m: int)
    requires
        0 <= m <= s.len(),
        forall|k: int| 0 <= k < m ==> (#[trigger] s[k]).name@.len() <= 1000000,
    ensures
        forall|i: int|
            0 <= i < spec_nodes_tokens(s, m).len() ==> ((#[trigger] spec_nodes_tokens(s, m)[i])
                matches Token::Text(nm) ==> nm@.len() <= 1000000),
    decreases m,
{
    if m > 0 {
        lemma_nodes_tokens_sized(s, m - 1);
        let pre = spec_nodes_tokens(s, m - 1);
        let blk = spec_node_tokens(s[m - 1]);
        let p = s[m - 1].parent_ids@.len() as int;
        assert(spec_nodes_tokens(s, m) == pre + blk);
        assert forall|i: int|
            0 <= i < spec_nodes_tokens(s, m).len() implies ((#[trigger] spec_nodes_tokens(
            s,
            m,
        )[i]) matches Token::Text(nm) ==> nm@.len() <= 1000000) by {
            if i < pre.len() {
                assert(spec_nodes_tokens(s, m)[i] == pre[i]);
            } else {
                let t = i - pre.len();
                assert(spec_nodes_tokens(s, m)[i] == blk[t]);
                if t == 7 + p {
                    assert(blk[t] == Token::Text(s[m - 1].name));
                } else if t >= 7 {
                    assert(blk[t] == Token::Num(s[m - 1].parent_ids@[t - 7] as i64));
                }
            }
        }
    }
}

/// The token stream of a machine-sized graph is machine-sized.
proof fn lemma_spec_tokens_sized(g: Graph)
    requires
        snapshot_sized(g),
    ensures
        tokens_sized(spec_tokens(g)),
{
    lemma_nodes_tokens_sized(g.nodes@, g.nodes@.len() as int);
    let blocks = spec_nodes_tokens(g.nodes@, g.nodes@.len() as int);
    assert forall|i: int|
        0 <= i < spec_tokens(g).len() implies ((#[trigger] spec_tokens(g)[i])
        matches Token::Text(nm) ==> nm@.len() <= 1000000) by {
        if i >= 6 {
            assert(spec_tokens(g)[i] == blocks[i - 6]);
        }
    }
}

/// Every token renders to at least a value and its trailing space.
proof fn lemma_render_token_len(tok: Token)
    ensures
        spec_render_token(tok).len() >= 2,
{
    match tok {
        Token::Num(v) => {
            if v < 0 {
                lemma_dec_digits_facts((-v) as nat);
            } else {
                lemma_dec_digits_facts(v as nat);
            }
        },
        Token::Text(st) => {
            lemma_dec_digits_facts(st@.len());
        },
    }
}

/// Earlier tokens' rendering is a prefix of later renderings.
proof fn lemma_render_take(t: Seq<Token>, k: int, m: int)
    requires
        0 <= k <= m <= t.len(),
    ensures
        spec_render(t, k).len() <= spec_render(t, m).len(),
        forall|i: int|
            0 <= i < spec_render(t, k).len() ==> #[trigger] spec_render(t, m)[i]
                == spec_render(t, k)[i],
    decreases m,
{
    if m > k {
        lemma_render_take(t, k, m - 1);
    }
}

/// Under a full rendering, the characters of token `k` sit exactly after
/// the first `k` tokens' rendering.
proof fn lemma_render_pinned(data: Seq<char>, t: Seq<Token>, k: int)
    requires
        data == spec_render(t, t.len() as int),
        0 <= k < t.len(),
    ensures
        ({
            let pos = spec_render(t, k).len() as int;
            let rt = spec_render_token(t[k]);
            &&& pos + rt.len() == spec_render(t, k + 1).len()
            &&& pos + rt.len() <= data.len()
            &&& data.subrange(pos, pos + rt.len()) == rt
        }),
{
    let pos = spec_render(t, k).len() as int;
    let rt = spec_render_token(t[k]);
    assert(spec_render(t, k + 1) == spec_render(t, k) + rt);
    lemma_render_take(t, k + 1, t.len() as int);
    assert(data.subrange(pos, pos + rt.len()) =~= rt) by {
        assert forall|q: int|
            0 <= q < rt.len() implies data.subrange(pos, pos + rt.len())[q] == rt[q] by {
            assert(data[pos + q] == spec_render(t, k + 1)[pos + q]);
            assert(spec_render(t, k + 1)[pos + q] == rt[q]);
        }
    }
}

/// Under a full rendering, a label token's characters: the marker, the
/// length digits, a space, the raw label, a space.
proof fn lemma_text_token_layout(data: Seq<char>, t: Seq<Token>, k: int)
    requires
        data == spec_render(t, t.len() as int),
        0 <= k < t.len(),
        t[k] is Text,
    ensures
        ({
            let pos = spec_render(t, k).len() as int;
            let st = t[k]->Text_0;
            let ld = dec_digits(st@.len());
            &&& pos + 3 + ld.len() + st@.len() == spec_render(t, k + 1).len()
            &&& spec_render(t, k + 1).len() <= data.len()
            &&& data[pos] == '#'
            &&& data.subrange(pos + 1, pos + 1 + ld.len() as int) == ld
            &&& data[pos + 1 + ld.len() as int] == ' '
            &&& data.subrange(
                pos + 2 + ld.len() as int,
                pos + 2 + ld.len() as int + st@.len() as int,
            ) == st@
            &&& data[pos + 2 + ld.len() as int + st@.len() as int] == ' '
        }),
{
    lemma_render_pinned(data, t, k);
    let pos = spec_render(t, k).len() as int;
    let st = t[k]->Text_0;
    let ld = dec_digits(st@.len());
    let ln = ld.len() as int;
    let sn = st@.len() as int;
    let rt = spec_render_token(t[k]);
    assert(rt == seq!['#'] + ld + seq![' '] + st@ + seq![' ']);
    assert(rt.len() == 3 + ln + sn);
    assert forall|q: int| 0 <= q < rt.len() implies data[pos + q] == rt[q] by {
        assert(data.subrange(pos, pos + rt.len() as int)[q] == rt[q]);
    }
    assert(rt[0] == '#');
    assert(data[pos] == rt[0]);
    assert forall|q: int| 0 <= q < ln implies #[trigger] rt[1 + q] == ld[q] by {
        assert((seq!['#'] + ld)[1 + q] == ld[q]);
        assert((seq!['#'] + ld + seq![' '])[1 + q] == (seq!['#'] + ld)[1 + q]);
        assert((seq!['#'] + ld + seq![' '] + st@)[1 + q] == (seq!['#'] + ld + seq![' '])[1 + q]);
        assert(rt[1 + q] == (seq!['#'] + ld + seq![' '] + st@)[1 + q]);
    }
    assert(data.subrange(pos + 1, pos + 1 + ln) =~= ld) by {
        assert forall|q: int|
            0 <= q < ln implies data.subrange(pos + 1, pos + 1 + ln)[q] == ld[q] by {
            assert(data[pos + (1 + q)] == rt[1 + q]);
        }
    }
    assert(rt[1 + ln] == ' ') by {
        assert((seq!['#'] + ld + seq![' '])[1 + ln] == ' ');
        assert((seq!['#'] + ld + seq![' '] + st@)[1 + ln] == (seq!['#'] + ld + seq![' '])[1
            + ln]);
        assert(rt[1 + ln] == (seq!['#'] + ld + seq![' '] + st@)[1 + ln]);
    }
    assert(data[pos + (1 + ln)] == rt[1 + ln]);
    assert forall|q: int| 0 <= q < sn implies #[trigger] rt[2 + ln + q] == st@[q] by {
        assert((seq!['#'] + ld + seq![' '] + st@)[2 + ln + q] == st@[q]);
        assert(rt[2 + ln + q] == (seq!['#'] + ld + seq![' '] + st@)[2 + ln + q]);
    }
    assert(data.subrange(pos + 2 + ln, pos + 2 + ln + sn) =~= st@) by {
        assert forall|q: int|
            0 <= q < sn implies data.subrange(pos + 2 + ln, pos + 2 + ln + sn)[q] == st@[q] by {
            assert(data[pos + (2 + ln + q)] == rt[2 + ln + q]);
        }
    }
    assert(rt[2 + ln + sn] == ' ');
    assert(data[pos + (2 + ln + sn)] == rt[2 + ln + sn]);
}

/// Under a full rendering, a number token's characters: its decimal
/// rendering, then a space.
proof fn lemma_num_token_layout(data: Seq<char>, t: Seq<Token>, k: int)
    requires
        data == spec_render(t, t.len() as int),
        0 <= k < t.len(),
        t[k] is Num,
    ensures
        ({
            let pos = spec_render(t, k).len() as int;
            let v = t[k]->Num_0 as int;
            &&& pos + dec_int(v).len() + 1 == spec_render(t, k + 1).len()
            &&& spec_render(t, k + 1).len() <= data.len()
            &&& data.subrange(pos, pos + dec_int(v).len() as int) == dec_int(v)
            &&& data[pos + dec_int(v).len() as int] == ' '
        }),
{
    lemma_render_pinned(data, t, k);
    let pos = spec_render(t, k).len() as int;
    let v = t[k]->Num_0 as int;
    let dv = dec_int(v);
    let dn = dv.len() as int;
    let rt = spec_render_token(t[k]);
    assert(rt == dv + seq![' ']);
    assert(rt.len() == dn + 1);
    assert forall|q: int| 0 <= q < rt.len() implies data[pos + q] == rt[q] by {
        assert(data.subrange(pos, pos + rt.len() as int)[q] == rt[q]);
    }
    assert(data.subrange(pos, pos + dn) =~= dv) by {
        assert forall|q: int| 0 <= q < dn implies data.subrange(pos, pos + dn)[q] == dv[q] by {
            assert(data[pos + q] == rt[q]);
            assert(rt[q] == dv[q]);
        }
    }
    assert(rt[dn] == ' ');
    assert(data[pos + dn] == rt[dn]);
}

/// Split a rendered line back into its tokens.
///
/// Parsing inverts rendering: whenever the input is the rendering of a
/// machine-sized token stream, the read succeeds and returns a stream
/// carrying exactly the same content.
fn parse_text(s: &str) -> (r: Result<Vec<Token>, EngineError>)
    ensures
        r matches Err(e) ==> decode_failure(e),
        forall|t: Seq<Token>|
            (tokens_sized(t) && s@ == #[trigger] spec_render(t, t.len() as int)) ==> (r
                matches Ok(v) && tokens_match(v@, t)),
{
    let n = s.unicode_len();
    let mut toks: Vec<Token> = Vec::new();
    let mut pos: usize = 0;
    proof {
        assert forall|t: Seq<Token>|
            (tokens_sized(t) && s@ == #[trigger] spec_render(t, t.len() as int)) implies 0
            == spec_render(t, 0).len() by {
            assert(spec_render(t, 0) =~= Seq::<char>::empty());
        }
    }
    while pos < n
        invariant
            pos <= n,
            n == s@.len(),
            forall|t: Seq<Token>|
                (tokens_sized(t) && s@ == #[trigger] spec_render(t, t.len() as int)) ==> (
                toks@.len() <= t.len() && pos == spec_render(t, toks@.len() as int).len() && (
                forall|i: int| 0 <= i < toks@.len() ==> token_eqv(#[trigger] toks@[i], t[i]))),
        decreases n - pos,
    {
        let ghost k0 = toks@.len() as int;
        let ghost pos0 = pos as int;
        let c = s.get_char(pos);
        if c == '#' {
            proof {
                // under any rendering hypothesis the token here is a label
                assert forall|t: Seq<Token>|
                    (tokens_sized(t) && s@ == #[trigger] spec_render(t, t.len() as int)) implies (
                k0 < t.len() && t[k0] is Text) by {
                    if k0 == t.len() {
                        assert(pos0 == s@.len());
                        assert(false);
                    }
                    if t[k0] is Num {
                        lemma_num_token_layout(s@, t, k0);
                        let v = t[k0]->Num_0 as int;
                        assert(s@.subrange(pos0, pos0 + dec_int(v).len() as int)[0] == dec_int(
                            v,
                        )[0]);
                        assert(s@[pos0] == dec_int(v)[0]);
                        if v >= 0 {
                            lemma_dec_digits_facts(v as nat);
                            assert(dec_int(v) == dec_digits(v as nat));
                            assert(spec_digit(dec_int(v)[0]) is Some);
                            assert(spec_digit('#') is None);
                        } else {
                            assert(dec_int(v) == seq!['-'] + dec_digits((-v) as nat));
                            assert(dec_int(v)[0] == '-');
                        }
                        assert(false);
                    }
                }
            }
            let (len_u, p2) = match parse_u64_at(s, pos + 1, n) {
                Ok(vp) => vp,
                Err(e) => {
                    proof {
                        assert forall|t: Seq<Token>|
                            !(tokens_sized(t) && s@ == #[trigger] spec_render(
                                t,
                                t.len() as int,
                            )) by {
                            if tokens_sized(t) && s@ == spec_render(t, t.len() as int) {
                                lemma_text_token_layout(s@, t, k0);
                                assert(t[k0] matches Token::Text(nm) && nm@.len() <= 1000000);
                                assert(false);
                            }
                        }
                    }
                    return Err(e);
                },
            };
            proof {
                assert forall|t: Seq<Token>|
                    (tokens_sized(t) && s@ == #[trigger] spec_render(t, t.len() as int)) implies (
                len_u == t[k0]->Text_0@.len() && p2 == pos0 + 2 + dec_digits(
                    t[k0]->Text_0@.len(),
                ).len()) by {
                    lemma_text_token_layout(s@, t, k0);
                    assert(t[k0] matches Token::Text(nm) && nm@.len() <= 1000000);
                }
            }
            pos = p2;
            if len_u > (n - pos) as u64 {
                proof {
                    assert forall|t: Seq<Token>|
                        !(tokens_sized(t) && s@ == #[trigger] spec_render(t, t.len() as int)) by {
                        if tokens_sized(t) && s@ == spec_render(t, t.len() as int) {
                            lemma_text_token_layout(s@, t, k0);
                            assert(false);
                        }
                    }
                }
                return Err(decode_error());
            }
            let l = len_u as usize;
            let name = s.substring_char(pos, pos + l).to_owned();
            pos = pos + l;
            if pos >= n {
                proof {
                    assert forall|t: Seq<Token>|
                        !(tokens_sized(t) && s@ == #[trigger] spec_render(t, t.len() as int)) by {
                        if tokens_sized(t) && s@ == spec_render(t, t.len() as int) {
                            lemma_text_token_layout(s@, t, k0);
                            assert(false);
                        }
                    }
                }
                return Err(decode_error());
            }
            if s.get_char(pos) != ' ' {
                proof {
                    assert forall|t: Seq<Token>|
                        !(tokens_sized(t) && s@ == #[trigger] spec_render(t, t.len() as int)) by {
                        if tokens_sized(t) && s@ == spec_render(t, t.len() as int) {
                            lemma_text_token_layout(s@, t, k0);
                            assert(false);
                        }
                    }
                }
                return Err(decode_error());
            }
            pos = pos + 1;
            toks.push(Token::Text(name));
            proof {
                assert forall|t: Seq<Token>|
                    (tokens_sized(t) && s@ == #[trigger] spec_render(t, t.len() as int)) implies (
                toks@.len() <= t.len() && pos == spec_render(t, toks@.len() as int).len() && (
                forall|i: int| 0 <= i < toks@.len() ==> token_eqv(#[trigger] toks@[i], t[i]))) by {
                    lemma_text_token_layout(s@, t, k0);
                    let st = t[k0]->Text_0;
                    let ln = dec_digits(st@.len()).len() as int;
                    assert(name@ == s@.subrange(p2 as int, p2 + l as int));
                    assert(name@ == st@);
                    assert(token_eqv(toks@[k0], t[k0]));
                    assert(spec_render(t, k0 + 1).len() == pos0 + 3 + ln + st@.len());
                    assert forall|i: int|
                        0 <= i < toks@.len() implies token_eqv(#[trigger] toks@[i], t[i]) by {
                        if i < k0 {
                            assert(toks@[i] == toks@.drop_last()[i]);
                        }
                    }
                }
            }
        } else {
            proof {
                // under any rendering hypothesis the token here is a number
                assert forall|t: Seq<Token>|
                    (tokens_sized(t) && s@ == #[trigger] spec_render(t, t.len() as int)) implies (
                k0 < t.len() && t[k0] is Num) by {
                    if k0 == t.len() {
                        assert(pos0 == s@.len());
                        assert(false);
                    }
                    if t[k0] is Text {
                        lemma_text_token_layout(s@, t, k0);
                        assert(false);
                    }
                }
            }
            let (v, p2) = match parse_i64_at(s, pos, n) {
                Ok(vp) => vp,
                Err(e) => {
                    proof {
                        assert forall|t: Seq<Token>|
                            !(tokens_sized(t) && s@ == #[trigger] spec_render(
                                t,
                                t.len() as int,
                            )) by {
                            if tokens_sized(t) && s@ == spec_render(t, t.len() as int) {
                                lemma_num_token_layout(s@, t, k0);
                                assert(false);
                            }
                        }
                    }
                    return Err(e);
                },
            };
            proof {
                assert forall|t: Seq<Token>|
                    (tokens_sized(t) && s@ == #[trigger] spec_render(t, t.len() as int)) implies (
                v == t[k0]->Num_0 && p2 == pos0 + dec_int(t[k0]->Num_0 as int).len() + 1) by {
                    lemma_num_token_layout(s@, t, k0);
                }
            }
            pos = p2;
            toks.push(Token::Num(v));
            proof {
                assert forall|t: Seq<Token>|
                    (tokens_sized(t) && s@ == #[trigger] spec_render(t, t.len() as int)) implies (
                toks@.len() <= t.len() && pos == spec_render(t, toks@.len() as int).len() && (
                forall|i: int| 0 <= i < toks@.len() ==> token_eqv(#[trigger] toks@[i], t[i]))) by {
                    lemma_num_token_layout(s@, t, k0);
                    assert(spec_render(t, k0 + 1).len() == pos0 + dec_int(
                        t[k0]->Num_0 as int,
                    ).len() + 1);
                    assert(token_eqv(toks@[k0], t[k0]));
                    assert forall|i: int|
                        0 <= i < toks@.len() implies token_eqv(#[trigger] toks@[i], t[i]) by {
                        if i < k0 {
                            assert(toks@[i] == toks@.drop_last()[i]);
                        }
                    }
                }
            }
        }
    }
    proof {
        assert forall|t: Seq<Token>|
            (tokens_sized(t) && s@ == #[trigger] spec_render(t, t.len() as int)) implies
            tokens_match(toks@, t) by {
            let k = toks@.len() as int;
            if k < t.len() {
                lemma_render_token_len(t[k]);
                lemma_render_take(t, k + 1, t.len() as int);
                assert(spec_render(t, k + 1) == spec_render(t, k) + spec_render_token(t[k]));
                assert(false);
            }
        }
    }
    Ok(toks)
}

impl Graph {
    /// Serialize the graph and its display flags as a one-line snapshot:
    /// the rendered form of the exact token stream `spec_tokens`.  The text
    /// is a function of the graph alone, and `load_session` promises to
    /// restore exactly this state from it.
    pub fn save_session(&self) -> (r: String)
        ensures
            r@ == spec_render(spec_tokens(*self), spec_tokens(*self).len() as int),
    {
        let toks = encode_tokens(self);
        render_tokens(&toks)
    }

    /// Replace the nodes, allocation counter and display flags with a
    /// parsed snapshot.
    ///
    /// Loading inverts saving: whenever the input is the saved snapshot of
    /// a well-formed, machine-sized graph, the call succeeds and restores
    /// that graph's nodes, counter and flags field for field (the derived
    /// values exactly as last computed, not recomputed).  A malformed
    /// snapshot yields a decode error carrying the parse-failure message
    /// and mutates nothing; the plot window is kept either way, as it is
    /// not part of a snapshot.
    pub fn load_session(&mut self, data: &str) -> (r: Result<(), EngineError>)
        requires
            old(self).wf(),
        ensures
            r is Ok ==> final(self).wf() && final(self).plot_bounds == old(self).plot_bounds,
            r matches Err(e) ==> decode_failure(e) && *final(self) == *old(self),
            forall|g0: Graph|
                (g0.wf() && snapshot_sized(g0) && data@ == #[trigger] spec_render(
                    spec_tokens(g0),
                    spec_tokens(g0).len() as int,
                )) ==> (r is Ok && final(self).nodes@.len() == g0.nodes@.len() && (forall|i: int|
                    0 <= i < g0.nodes@.len() ==> (#[trigger] final(self).nodes@[i]).eqv(
                        g0.nodes@[i],
                    )) && final(self).next_id == g0.next_id && final(self).show_shading
                    == g0.show_shading && final(self).shading_opacity == g0.shading_opacity
                    && final(self).show_std_markers == g0.show_std_markers),
    {
        let toks = match parse_text(data) {
            Ok(t) => t,
            Err(e) => {
                proof {
                    assert forall|g0: Graph|
                        !(g0.wf() && snapshot_sized(g0) && data@ == #[trigger] spec_render(
                            spec_tokens(g0),
                            spec_tokens(g0).len() as int,
                        )) by {
                        if g0.wf() && snapshot_sized(g0) && data@ == spec_render(
                            spec_tokens(g0),
                            spec_tokens(g0).len() as int,
                        ) {
                            lemma_spec_tokens_sized(g0);
                            assert(false);
                        }
                    }
                }
                return Err(e);
            },
        };
        let g = match decode_tokens(&toks) {
            Ok(g) => g,
            Err(e) => {
                proof {
                    assert forall|g0: Graph|
                        !(g0.wf() && snapshot_sized(g0) && data@ == #[trigger] spec_render(
                            spec_tokens(g0),
                            spec_tokens(g0).len() as int,
                        )) by {
                        if g0.wf() && snapshot_sized(g0) && data@ == spec_render(
                            spec_tokens(g0),
                            spec_tokens(g0).len() as int,
                        ) {
                            lemma_spec_tokens_sized(g0);
                            assert(tokens_match(toks@, spec_tokens(g0)));
                            assert(false);
                        }
                    }
                }
                return Err(e);
            },
        };
        let ghost gg = g;
        self.nodes = g.nodes;
        self.next_id = g.next_id;
        self.show_shading = g.show_shading;
        self.shading_opacity = g.shading_opacity;
        self.show_std_markers = g.show_std_markers;
        proof {
            assert forall|g0: Graph|
                (g0.wf() && snapshot_sized(g0) && data@ == #[trigger] spec_render(
                    spec_tokens(g0),
                    spec_tokens(g0).len() as int,
                )) implies (final(self).nodes@.len() == g0.nodes@.len() && (forall|i: int|
                0 <= i < g0.nodes@.len() ==> (#[trigger] final(self).nodes@[i]).eqv(
                    g0.nodes@[i],
                )) && final(self).next_id == g0.next_id && final(self).show_shading
                == g0.show_shading && final(self).shading_opacity == g0.shading_opacity && final(self).show_std_markers == g0.show_std_markers) by {
                lemma_spec_tokens_sized(g0);
                assert(tokens_match(toks@, spec_tokens(g0)));
                assert(toks@ == spec_tokens(gg));
                assert(tokens_match(spec_tokens(gg), spec_tokens(g0)));
                law_snapshot_round_trip(g0, gg);
            }
        }
        Ok(())
    }
}

} // verus!
