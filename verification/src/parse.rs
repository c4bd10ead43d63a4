//! The reader side of the record format: a parser that accepts exactly the
//! canonical rendering of `render_record` and returns the record it renders.
//! Together with the renderer this makes the log a durable contract: every
//! record written is recovered byte-for-byte when the line is read back.

use vstd::prelude::*;

use crate::config::ResourceKind;
use crate::numfmt::{
    dec_digits, fixed4_at, fixed4_digits, number_at,
    lemma_dec_digits_are_digits, parse_fixed4_at, parse_u64_at,
};
use crate::record::{
    build_lit_key_cpu, build_lit_key_duration, build_lit_key_name, build_lit_key_peak,
    build_lit_key_ram, build_lit_key_threshold, build_lit_key_top, build_lit_key_ts_end,
    build_lit_key_ts_start, build_lit_obj_resource, build_lit_proc_close,
    build_lit_proc_open, build_lit_rec_close,
    escape_byte, escape_bytes, lit_comma, lit_key_cpu, lit_key_duration, lit_key_name,
    lit_key_peak, lit_key_ram, lit_key_threshold, lit_key_top, lit_key_ts_end,
    lit_key_ts_start, lit_obj_resource, lit_proc_close, lit_proc_open, lit_rec_close,
    proc_views, render_proc, render_procs, render_procs_rest, render_record,
    render_record_prefix, resource_word,
    LogProc, LogProcView, LogRecord, LogRecordView,
};

verus! {

/// Match a literal byte pattern at `pos`: succeeds exactly when the pattern
/// stands there whole.
fn expect_at(input: &Vec<u8>, pos: usize, pat: &Vec<u8>) -> (r: Option<usize>)
    requires
        pos <= input@.len(),
    ensures
        match r {
            Option::Some(p2) => {
                &&& p2 == pos + pat@.len()
                &&& p2 <= input@.len()
                &&& input@.subrange(pos as int, p2 as int) == pat@
            },
            Option::None => !(pos + pat@.len() <= input@.len()
                && input@.subrange(pos as int, pos + pat@.len() as int) == pat@),
        },
{
    let ghost s = input@;
    if input.len() - pos < pat.len() {
        proof {
            if pos + pat@.len() <= s.len() {
                assert(false);
            }
        }
        return None;
    }
    let n = pat.len();
    let mut j: usize = 0;
    let mut ok = true;
    let ghost mut bad: int = 0;
    while j < n
        invariant
            s == input@,
            n == pat@.len(),
            pos + n <= s.len(),
            pos + n <= usize::MAX,
            j <= n,
            ok ==> forall|k: int| 0 <= k < j ==> s[pos + k] == pat@[k],
            !ok ==> 0 <= bad < j && s[pos + bad] != pat@[bad],
        decreases n - j,
    {
        if input[pos + j] != pat[j] {
            ok = false;
            proof {
                bad = j as int;
            }
        }
        j += 1;
    }
    if ok {
        proof {
            assert(s.subrange(pos as int, (pos + n) as int) =~= pat@);
        }
        Some(pos + n)
    } else {
        proof {
            if s.subrange(pos as int, pos + pat@.len() as int) == pat@ {
                assert(s[pos + bad]
                    == s.subrange(pos as int, pos + pat@.len() as int)[bad]);
                assert(false);
            }
        }
        None
    }
}

/// The resource word of `k` stands at `pos`.
pub open spec fn word_at(s: Seq<u8>, pos: int, k: ResourceKind) -> bool {
    &&& 0 <= pos
    &&& pos + resource_word(k).len() <= s.len()
    &&& s.subrange(pos, pos + resource_word(k).len() as int) == resource_word(k)
}

/// Build the resource word of `k` as a vector.
fn build_resource_word(k: ResourceKind) -> (r: Vec<u8>)
    ensures
        r@ == resource_word(k),
{
    let mut v: Vec<u8> = Vec::new();
    match k {
        ResourceKind::Cpu => {
            v.push(99);
            v.push(112);
            v.push(117);
        },
        ResourceKind::Ram => {
            v.push(114);
            v.push(97);
            v.push(109);
        },
        ResourceKind::Io => {
            v.push(105);
            v.push(111);
        },
    }
    proof {
        assert(v@ =~= resource_word(k));
    }
    v
}

/// Parse the resource word at `pos`. The three words differ in their first
/// byte, so the parse is determined by one byte.
fn parse_resource_at(input: &Vec<u8>, pos: usize) -> (r: Option<(ResourceKind, usize)>)
    requires
        pos <= input@.len(),
    ensures
        (match r {
            Option::Some((k, p2)) => {
                &&& pos < p2 <= input@.len()
                &&& input@.subrange(pos as int, p2 as int) == resource_word(k)
            },
            Option::None => true,
        }),
        forall|k: ResourceKind| word_at(input@, pos as int, k)
            ==> r == Option::Some((k, (pos + resource_word(k).len()) as usize)),
{
    let ghost s = input@;
    if pos == input.len() {
        return None;
    }
    let b = input[pos];
    let kind: ResourceKind = if b == 99 {
        ResourceKind::Cpu
    } else if b == 114 {
        ResourceKind::Ram
    } else if b == 105 {
        ResourceKind::Io
    } else {
        proof {
            assert forall|k: ResourceKind| !word_at(s, pos as int, k) by {
                if word_at(s, pos as int, k) {
                    assert(s[pos as int] == resource_word(k)[0]);
                }
            }
        }
        return None;
    };
    let word = build_resource_word(kind);
    let r = expect_at(input, pos, &word);
    proof {
        assert forall|k: ResourceKind| word_at(s, pos as int, k) implies k == kind by {
            assert(s[pos as int] == resource_word(k)[0]);
        }
    }
    match r {
        Some(p2) => Some((kind, p2)),
        None => None,
    }
}

/// An escaped name stands at `pos`, closed by a double quote just after it.
pub open spec fn name_at(s: Seq<u8>, pos: int, nm: Seq<u8>) -> bool {
    &&& 0 <= pos
    &&& pos + escape_bytes(nm).len() < s.len()
    &&& s.subrange(pos, pos + escape_bytes(nm).len() as int) == escape_bytes(nm)
    &&& s[pos + escape_bytes(nm).len() as int] == 34
}

/// An escaped name never starts with a bare double quote, and splits off its
/// first source byte.
proof fn lemma_escape_head(nm: Seq<u8>)
    requires
        nm.len() > 0,
    ensures
        escape_bytes(nm) == escape_byte(nm[0]) + escape_bytes(nm.skip(1)),
        escape_bytes(nm).len() >= 1,
        escape_bytes(nm)[0] != 34,
        escape_bytes(nm)[0] == 92 ==> {
            &&& (nm[0] == 92 || nm[0] == 34)
            &&& escape_bytes(nm).len() >= 2
            &&& escape_bytes(nm)[1] == nm[0]
        },
        escape_bytes(nm)[0] != 92 ==> escape_bytes(nm)[0] == nm[0] && nm[0] != 92 && nm[0] != 34,
{
}

/// Parse the escaped name starting at `pos`, up to (not including) the
/// closing double quote.
///
/// On success the consumed bytes are exactly the escape of the returned
/// name and the closing quote follows; and whenever an escaped, closed name
/// stands at `pos`, parsing succeeds and returns exactly it.
fn parse_name_at(input: &Vec<u8>, pos: usize) -> (r: Option<(Vec<u8>, usize)>)
    requires
        pos <= input@.len(),
    ensures
        (match r {
            Option::Some((nm, p2)) => {
                &&& pos <= p2 < input@.len()
                &&& input@.subrange(pos as int, p2 as int) == escape_bytes(nm@)
                &&& input@[p2 as int] == 34
            },
            Option::None => true,
        }),
        forall|nm: Seq<u8>| name_at(input@, pos as int, nm)
            ==> (match r {
                Option::Some((v, p2)) => v@ == nm
                    && p2 == pos + escape_bytes(nm).len(),
                Option::None => false,
            }),
    decreases input@.len() - pos,
{
    let ghost s = input@;
    let len = input.len();
    if pos == len {
        return None;
    }
    let b = input[pos];
    if b == 34 {
        let nm: Vec<u8> = Vec::new();
        proof {
            assert(s.subrange(pos as int, pos as int) =~= escape_bytes(nm@));
            assert forall|m: Seq<u8>| name_at(s, pos as int, m) implies m == nm@
                && pos as int == pos + escape_bytes(m).len() by {
                if m.len() > 0 {
                    lemma_escape_head(m);
                    assert(s[pos as int] == escape_bytes(m)[0]);
                }
                assert(m =~= nm@);
            }
        }
        return Some((nm, pos));
    }
    if b == 92 {
        if pos + 1 == len {
            proof {
                assert forall|m: Seq<u8>| !name_at(s, pos as int, m) by {
                    if name_at(s, pos as int, m) {
                        if m.len() == 0 {
                            assert(s[pos as int] == 34);
                        } else {
                            lemma_escape_head(m);
                            assert(s[pos as int] == escape_bytes(m)[0]);
                            assert(escape_bytes(m).len() >= 2);
                        }
                    }
                }
            }
            return None;
        }
        let c = input[pos + 1];
        if c != 92 && c != 34 {
            proof {
                assert forall|m: Seq<u8>| !name_at(s, pos as int, m) by {
                    if name_at(s, pos as int, m) {
                        if m.len() == 0 {
                            assert(s[pos as int] == 34);
                        } else {
                            lemma_escape_head(m);
                            assert(s[pos as int] == escape_bytes(m)[0]);
                            assert(s[pos as int + 1] == escape_bytes(m)[1]);
                        }
                    }
                }
            }
            return None;
        }
        let rest = parse_name_at(input, pos + 2);
        proof {
            assert forall|m: Seq<u8>| name_at(s, pos as int, m)
                implies m.len() > 0 && (m[0] == 92 || m[0] == 34)
                    && name_at(s, pos as int + 2, m.skip(1)) && m[0] == c by {
                if m.len() == 0 {
                    assert(s[pos as int] == 34);
                }
                lemma_escape_head(m);
                let e = escape_bytes(m);
                let l = e.len() as int;
                assert(s[pos as int] == e[0] && s[pos as int + 1] == e[1]) by {
                    assert(s.subrange(pos as int, pos + l)[0] == e[0]);
                    assert(s.subrange(pos as int, pos + l)[1] == e[1]);
                }
                assert(s.subrange(pos as int + 2, pos + l)
                    =~= s.subrange(pos as int, pos + l).subrange(2, l));
                assert(e.subrange(2, l) =~= escape_bytes(m.skip(1)));
            }
        }
        match rest {
            Some((tail, p2)) => {
                let ghost tailv = tail@;
                let mut v = tail;
                v.insert(0, c);
                proof {
                    assert(v@ =~= seq![c] + tailv);
                    lemma_escape_head(v@);
                    assert(v@.skip(1) =~= tailv);
                    assert(s.subrange(pos as int, p2 as int) =~= escape_bytes(v@));
                    assert forall|m: Seq<u8>| name_at(s, pos as int, m)
                        implies v@ == m && p2 == pos + escape_bytes(m).len() by {
                        lemma_escape_head(m);
                        assert(m =~= seq![c] + m.skip(1));
                        assert(v@ =~= m);
                    }
                }
                return Some((v, p2));
            },
            None => {
                return None;
            },
        }
    }
    // An ordinary byte: it stands for itself.
    let rest = parse_name_at(input, pos + 1);
    proof {
        assert forall|m: Seq<u8>| name_at(s, pos as int, m)
            implies m.len() > 0 && m[0] == b
                && name_at(s, pos as int + 1, m.skip(1)) by {
            if m.len() == 0 {
                assert(s[pos as int] == 34);
            }
            lemma_escape_head(m);
            let e = escape_bytes(m);
            let l = e.len() as int;
            assert(s[pos as int] == e[0]) by {
                assert(s.subrange(pos as int, pos + l)[0] == e[0]);
            }
            assert(s.subrange(pos as int + 1, pos + l)
                =~= s.subrange(pos as int, pos + l).subrange(1, l));
            assert(e.subrange(1, l) =~= escape_bytes(m.skip(1)));
        }
    }
    match rest {
        Some((tail, p2)) => {
            let ghost tailv = tail@;
            let mut v = tail;
            v.insert(0, b);
            proof {
                assert(v@ =~= seq![b] + tailv);
                lemma_escape_head(v@);
                assert(v@.skip(1) =~= tailv);
                assert(s.subrange(pos as int, p2 as int) =~= escape_bytes(v@));
                assert forall|m: Seq<u8>| name_at(s, pos as int, m)
                    implies v@ == m && p2 == pos + escape_bytes(m).len() by {
                    lemma_escape_head(m);
                    assert(m =~= seq![b] + m.skip(1));
                    assert(v@ =~= m);
                }
            }
            return Some((v, p2));
        },
        None => {
            return None;
        },
    }
}


/// Splitting a byte range at an interior point splits its contents.
pub proof fn lemma_subrange_split(s: Seq<u8>, a: int, b: int, c: int)
    requires
        0 <= a <= b <= c <= s.len(),
    ensures
        s.subrange(a, c) == s.subrange(a, b) + s.subrange(b, c),
{
    assert(s.subrange(a, c) =~= s.subrange(a, b) + s.subrange(b, c));
}

/// Equal concatenations with equally long left parts have equal parts.
pub proof fn lemma_concat_parts(x: Seq<u8>, y: Seq<u8>, a: Seq<u8>, b: Seq<u8>)
    requires
        x + y == a + b,
        x.len() == a.len(),
    ensures
        x == a,
        y == b,
{
    assert forall|i: int| 0 <= i < x.len() implies x[i] == a[i] by {
        assert((x + y)[i] == x[i]);
        assert((a + b)[i] == a[i]);
        assert((x + y)[i] == (a + b)[i]);
    }
    assert(x =~= a);
    assert((x + y).len() == x.len() + y.len());
    assert((a + b).len() == a.len() + b.len());
    assert(y.len() == b.len());
    assert forall|i: int| 0 <= i < y.len() implies y[i] == b[i] by {
        assert((x + y)[x.len() + i] == y[i]);
        assert((a + b)[a.len() + i] == b[i]);
        assert((x + y)[x.len() + i] == (a + b)[a.len() + i]);
    }
    assert(y =~= b);
}

/// The rendering of one `top` entry stands at `pos`.
pub open spec fn proc_at(s: Seq<u8>, pos: int, pv: LogProcView) -> bool {
    &&& 0 <= pos
    &&& pos + render_proc(pv).len() <= s.len()
    &&& s.subrange(pos, pos + render_proc(pv).len() as int) == render_proc(pv)
}

/// How a rendered `top` entry standing in `s` decomposes: each field stands
/// delimited at its computed offset.
pub proof fn lemma_proc_shape(s: Seq<u8>, pos: int, pv: LogProcView)
    requires
        proc_at(s, pos, pv),
    ensures
        ({
            let q1 = pos + lit_proc_open().len();
            let q2 = q1 + dec_digits(pv.pid as nat).len();
            let q3 = q2 + lit_key_name().len();
            let q4 = q3 + escape_bytes(pv.name).len();
            let q5 = q4 + lit_key_cpu().len();
            let q6 = q5 + fixed4_digits(pv.cpu).len();
            let q7 = q6 + lit_key_ram().len();
            let q8 = q7 + dec_digits(pv.ram_bytes as nat).len();
            let q9 = q8 + lit_proc_close().len();
            &&& pos + render_proc(pv).len() == q9
            &&& q9 <= s.len()
            &&& s.subrange(pos, q1) == lit_proc_open()
            &&& number_at(s, q1, pv.pid as u64)
            &&& s.subrange(q2, q3) == lit_key_name()
            &&& name_at(s, q3, pv.name)
            &&& s.subrange(q4, q5) == lit_key_cpu()
            &&& fixed4_at(s, q5, pv.cpu)
            &&& s.subrange(q6, q7) == lit_key_ram()
            &&& number_at(s, q7, pv.ram_bytes)
            &&& s.subrange(q8, q9) == lit_proc_close()
        }),
{
    let a = lit_proc_open();
    let b = dec_digits(pv.pid as nat);
    let c = lit_key_name();
    let d = escape_bytes(pv.name);
    let e = lit_key_cpu();
    let f = fixed4_digits(pv.cpu);
    let g = lit_key_ram();
    let h = dec_digits(pv.ram_bytes as nat);
    let i = lit_proc_close();
    let q1 = pos + a.len();
    let q2 = q1 + b.len();
    let q3 = q2 + c.len();
    let q4 = q3 + d.len();
    let q5 = q4 + e.len();
    let q6 = q5 + f.len();
    let q7 = q6 + g.len();
    let q8 = q7 + h.len();
    let q9 = q8 + i.len();

    // Peel the concatenation from the right, one piece at a time.
    lemma_subrange_split(s, pos, q8, q9);
    lemma_concat_parts(
        s.subrange(pos, q8),
        s.subrange(q8, q9),
        a + b + c + d + e + f + g + h,
        i,
    );
    lemma_subrange_split(s, pos, q7, q8);
    lemma_concat_parts(
        s.subrange(pos, q7),
        s.subrange(q7, q8),
        a + b + c + d + e + f + g,
        h,
    );
    lemma_subrange_split(s, pos, q6, q7);
    lemma_concat_parts(
        s.subrange(pos, q6),
        s.subrange(q6, q7),
        a + b + c + d + e + f,
        g,
    );
    lemma_subrange_split(s, pos, q5, q6);
    lemma_concat_parts(s.subrange(pos, q5), s.subrange(q5, q6), a + b + c + d + e, f);
    lemma_subrange_split(s, pos, q4, q5);
    lemma_concat_parts(s.subrange(pos, q4), s.subrange(q4, q5), a + b + c + d, e);
    lemma_subrange_split(s, pos, q3, q4);
    lemma_concat_parts(s.subrange(pos, q3), s.subrange(q3, q4), a + b + c, d);
    lemma_subrange_split(s, pos, q2, q3);
    lemma_concat_parts(s.subrange(pos, q2), s.subrange(q2, q3), a + b, c);
    lemma_subrange_split(s, pos, q1, q2);
    lemma_concat_parts(s.subrange(pos, q1), s.subrange(q1, q2), a, b);

    // The delimiters that make the numeric fields and the name delimited.
    lemma_dec_digits_are_digits(pv.pid as nat);
    lemma_dec_digits_are_digits(pv.ram_bytes as nat);
    assert(s[q2] == lit_key_name()[0]) by {
        assert(s.subrange(q2, q3)[0] == lit_key_name()[0]);
    }
    assert(s[q4] == lit_key_cpu()[0]) by {
        assert(s.subrange(q4, q5)[0] == lit_key_cpu()[0]);
    }
    assert(s[q8] == lit_proc_close()[0]) by {
        assert(s.subrange(q8, q9)[0] == lit_proc_close()[0]);
    }
    assert(number_at(s, q1, pv.pid as u64));
    assert(name_at(s, q3, pv.name));
    assert(fixed4_at(s, q5, pv.cpu));
    assert(number_at(s, q7, pv.ram_bytes));
}


/// Parse one `top` entry at `pos`.
///
/// On success the consumed bytes are exactly the canonical rendering of the
/// returned entry; and whenever a rendered entry stands at `pos`, parsing
/// succeeds and returns exactly it.
#[verifier::rlimit(100)]
pub fn parse_proc_at(input: &Vec<u8>, pos: usize) -> (r: Option<(LogProc, usize)>)
    requires
        pos <= input@.len(),
    ensures
        (match r {
            Option::Some((p, p2)) => {
                &&& pos < p2 <= input@.len()
                &&& input@.subrange(pos as int, p2 as int) == render_proc(p@)
            },
            Option::None => true,
        }),
        forall|pv: LogProcView| proc_at(input@, pos as int, pv)
            ==> (match r {
                Option::Some((p, p2)) => p@ == pv
                    && p2 == pos + render_proc(pv).len(),
                Option::None => false,
            }),
{
    let ghost s = input@;

    let lit_open = build_lit_proc_open();
    let q1 = match expect_at(input, pos, &lit_open) {
        Some(p) => p,
        None => {
            proof {
                assert forall|pv: LogProcView| !proc_at(s, pos as int, pv) by {
                    if proc_at(s, pos as int, pv) {
                        lemma_proc_shape(s, pos as int, pv);
                    }
                }
            }
            return None;
        },
    };
    let (pid64, q2) = match parse_u64_at(input, q1) {
        Some(pair) => pair,
        None => {
            proof {
                assert forall|pv: LogProcView| !proc_at(s, pos as int, pv) by {
                    if proc_at(s, pos as int, pv) {
                        lemma_proc_shape(s, pos as int, pv);
                    }
                }
            }
            return None;
        },
    };
    if pid64 > 0xffff_ffff {
        proof {
            assert forall|pv: LogProcView| !proc_at(s, pos as int, pv) by {
                if proc_at(s, pos as int, pv) {
                    lemma_proc_shape(s, pos as int, pv);
                }
            }
        }
        return None;
    }
    let pid: u32 = pid64 as u32;
    let lit_name_key = build_lit_key_name();
    let q3 = match expect_at(input, q2, &lit_name_key) {
        Some(p) => p,
        None => {
            proof {
                assert forall|pv: LogProcView| !proc_at(s, pos as int, pv) by {
                    if proc_at(s, pos as int, pv) {
                        lemma_proc_shape(s, pos as int, pv);
                    }
                }
            }
            return None;
        },
    };
    let (name, q4) = match parse_name_at(input, q3) {
        Some(pair) => pair,
        None => {
            proof {
                assert forall|pv: LogProcView| !proc_at(s, pos as int, pv) by {
                    if proc_at(s, pos as int, pv) {
                        lemma_proc_shape(s, pos as int, pv);
                    }
                }
            }
            return None;
        },
    };
    let lit_cpu_key = build_lit_key_cpu();
    let q5 = match expect_at(input, q4, &lit_cpu_key) {
        Some(p) => p,
        None => {
            proof {
                assert forall|pv: LogProcView| !proc_at(s, pos as int, pv) by {
                    if proc_at(s, pos as int, pv) {
                        lemma_proc_shape(s, pos as int, pv);
                    }
                }
            }
            return None;
        },
    };
    let (cpu, q6) = match parse_fixed4_at(input, q5) {
        Some(pair) => pair,
        None => {
            proof {
                assert forall|pv: LogProcView| !proc_at(s, pos as int, pv) by {
                    if proc_at(s, pos as int, pv) {
                        lemma_proc_shape(s, pos as int, pv);
                    }
                }
            }
            return None;
        },
    };
    let lit_ram_key = build_lit_key_ram();
    let q7 = match expect_at(input, q6, &lit_ram_key) {
        Some(p) => p,
        None => {
            proof {
                assert forall|pv: LogProcView| !proc_at(s, pos as int, pv) by {
                    if proc_at(s, pos as int, pv) {
                        lemma_proc_shape(s, pos as int, pv);
                    }
                }
            }
            return None;
        },
    };
    let (ram_bytes, q8) = match parse_u64_at(input, q7) {
        Some(pair) => pair,
        None => {
            proof {
                assert forall|pv: LogProcView| !proc_at(s, pos as int, pv) by {
                    if proc_at(s, pos as int, pv) {
                        lemma_proc_shape(s, pos as int, pv);
                    }
                }
            }
            return None;
        },
    };
    let lit_close = build_lit_proc_close();
    let q9 = match expect_at(input, q8, &lit_close) {
        Some(p) => p,
        None => {
            proof {
                assert forall|pv: LogProcView| !proc_at(s, pos as int, pv) by {
                    if proc_at(s, pos as int, pv) {
                        lemma_proc_shape(s, pos as int, pv);
                    }
                }
            }
            return None;
        },
    };

    let p = LogProc { pid, name, cpu, ram_bytes };
    proof {
        lemma_subrange_split(s, pos as int, q1 as int, q2 as int);
        lemma_subrange_split(s, pos as int, q2 as int, q3 as int);
        lemma_subrange_split(s, pos as int, q3 as int, q4 as int);
        lemma_subrange_split(s, pos as int, q4 as int, q5 as int);
        lemma_subrange_split(s, pos as int, q5 as int, q6 as int);
        lemma_subrange_split(s, pos as int, q6 as int, q7 as int);
        lemma_subrange_split(s, pos as int, q7 as int, q8 as int);
        lemma_subrange_split(s, pos as int, q8 as int, q9 as int);
        assert(s.subrange(pos as int, q9 as int) == render_proc(p@));
        assert forall|pv: LogProcView| proc_at(s, pos as int, pv)
            implies p@ == pv && q9 == pos + render_proc(pv).len() by {
            lemma_proc_shape(s, pos as int, pv);
            assert(p@ =~= pv);
        }
    }
    Some((p, q9))
}


/// The rendering of the entries after the first stands at `pos`, and the
/// array's closing bracket follows it.
pub open spec fn procs_rest_at(s: Seq<u8>, pos: int, psv: Seq<LogProcView>) -> bool {
    &&& 0 <= pos
    &&& pos + render_procs_rest(psv).len() < s.len()
    &&& s.subrange(pos, pos + render_procs_rest(psv).len() as int) == render_procs_rest(psv)
    &&& s[pos + render_procs_rest(psv).len() as int] == 93
}

/// The rendering of a whole `top` array's contents stands at `pos`, and the
/// array's closing bracket follows it.
pub open spec fn procs_at(s: Seq<u8>, pos: int, psv: Seq<LogProcView>) -> bool {
    &&& 0 <= pos
    &&& pos + render_procs(psv).len() < s.len()
    &&& s.subrange(pos, pos + render_procs(psv).len() as int) == render_procs(psv)
    &&& s[pos + render_procs(psv).len() as int] == 93
}

/// How a rendered non-empty tail decomposes: a comma, one entry, the rest.
pub proof fn lemma_procs_rest_shape(s: Seq<u8>, pos: int, psv: Seq<LogProcView>)
    requires
        procs_rest_at(s, pos, psv),
        psv.len() > 0,
    ensures
        s[pos] == 44,
        proc_at(s, pos + 1, psv[0]),
        procs_rest_at(s, pos + 1 + render_proc(psv[0]).len() as int, psv.skip(1)),
        render_procs_rest(psv).len() == 1 + render_proc(psv[0]).len()
            + render_procs_rest(psv.skip(1)).len(),
{
    let a = lit_comma();
    let b = render_proc(psv[0]);
    let c = render_procs_rest(psv.skip(1));
    let q1 = pos + 1;
    let q2 = q1 + b.len();
    let q3 = q2 + c.len();
    assert(render_procs_rest(psv) == a + b + c);
    lemma_subrange_split(s, pos, q2, q3);
    lemma_concat_parts(s.subrange(pos, q2), s.subrange(q2, q3), a + b, c);
    lemma_subrange_split(s, pos, q1, q2);
    lemma_concat_parts(s.subrange(pos, q1), s.subrange(q1, q2), a, b);
    assert(s[pos] == 44) by {
        assert(s.subrange(pos, q1)[0] == a[0]);
    }
}

/// How a rendered non-empty array decomposes: the first entry, then the rest.
pub proof fn lemma_procs_shape(s: Seq<u8>, pos: int, psv: Seq<LogProcView>)
    requires
        procs_at(s, pos, psv),
        psv.len() > 0,
    ensures
        proc_at(s, pos, psv[0]),
        procs_rest_at(s, pos + render_proc(psv[0]).len() as int, psv.skip(1)),
        render_procs(psv).len() == render_proc(psv[0]).len()
            + render_procs_rest(psv.skip(1)).len(),
        s[pos] == 123,
{
    let b = render_proc(psv[0]);
    let c = render_procs_rest(psv.skip(1));
    let q2 = pos + b.len();
    let q3 = q2 + c.len();
    assert(render_procs(psv) == b + c);
    lemma_subrange_split(s, pos, q2, q3);
    lemma_concat_parts(s.subrange(pos, q2), s.subrange(q2, q3), b, c);
    assert(s[pos] == 123) by {
        assert(b == lit_proc_open() + dec_digits(psv[0].pid as nat) + lit_key_name()
            + escape_bytes(psv[0].name) + lit_key_cpu() + fixed4_digits(psv[0].cpu)
            + lit_key_ram() + dec_digits(psv[0].ram_bytes as nat) + lit_proc_close());
        assert(b[0] == lit_proc_open()[0]);
        assert(s.subrange(pos, q2)[0] == b[0]);
    }
}

/// Parse the entries after the first, up to (not including) the closing
/// bracket of the `top` array.
#[verifier::rlimit(100)]
fn parse_procs_rest_at(input: &Vec<u8>, pos: usize) -> (r: Option<(Vec<LogProc>, usize)>)
    requires
        pos <= input@.len(),
    ensures
        (match r {
            Option::Some((ps, p2)) => {
                &&& pos <= p2 < input@.len()
                &&& input@.subrange(pos as int, p2 as int)
                    == render_procs_rest(proc_views(ps@))
                &&& input@[p2 as int] == 93
            },
            Option::None => true,
        }),
        forall|psv: Seq<LogProcView>| procs_rest_at(input@, pos as int, psv)
            ==> (match r {
                Option::Some((ps, p2)) => proc_views(ps@) == psv
                    && p2 == pos + render_procs_rest(psv).len(),
                Option::None => false,
            }),
    decreases input@.len() - pos,
{
    let ghost s = input@;
    let len = input.len();
    if pos == len {
        return None;
    }
    let b = input[pos];
    if b == 93 {
        let ps: Vec<LogProc> = Vec::new();
        proof {
            assert(proc_views(ps@) =~= Seq::<LogProcView>::empty());
            assert(s.subrange(pos as int, pos as int)
                =~= render_procs_rest(proc_views(ps@)));
            assert forall|psv: Seq<LogProcView>| procs_rest_at(s, pos as int, psv)
                implies proc_views(ps@) == psv
                    && pos as int == pos + render_procs_rest(psv).len() by {
                if psv.len() > 0 {
                    lemma_procs_rest_shape(s, pos as int, psv);
                }
                assert(psv =~= proc_views(ps@));
            }
        }
        return Some((ps, pos));
    }
    if b != 44 {
        proof {
            assert forall|psv: Seq<LogProcView>| !procs_rest_at(s, pos as int, psv) by {
                if procs_rest_at(s, pos as int, psv) {
                    if psv.len() > 0 {
                        lemma_procs_rest_shape(s, pos as int, psv);
                    }
                }
            }
        }
        return None;
    }
    proof {
        assert forall|psv: Seq<LogProcView>| procs_rest_at(s, pos as int, psv)
            implies psv.len() > 0 && proc_at(s, pos as int + 1, psv[0])
                && procs_rest_at(
                    s,
                    pos as int + 1 + render_proc(psv[0]).len() as int,
                    psv.skip(1),
                ) by {
            if psv.len() > 0 {
                lemma_procs_rest_shape(s, pos as int, psv);
            }
        }
    }
    let first = parse_proc_at(input, pos + 1);
    let (head, q) = match first {
        Some(pair) => pair,
        None => {
            return None;
        },
    };
    let rest = parse_procs_rest_at(input, q);
    match rest {
        Some((tail, p2)) => {
            let ghost tailv = tail@;
            let mut ps = tail;
            ps.insert(0, head);
            proof {
                assert(proc_views(ps@) =~= seq![head@] + proc_views(tailv));
                assert(proc_views(ps@)[0] == head@);
                assert(proc_views(ps@).skip(1) =~= proc_views(tailv));
                lemma_subrange_split(s, pos as int, pos as int + 1, q as int);
                lemma_subrange_split(s, pos as int, q as int, p2 as int);
                assert(s.subrange(pos as int, pos as int + 1) =~= lit_comma());
                assert(s.subrange(pos as int, p2 as int)
                    =~= render_procs_rest(proc_views(ps@)));
                assert forall|psv: Seq<LogProcView>| procs_rest_at(s, pos as int, psv)
                    implies proc_views(ps@) == psv
                        && p2 == pos + render_procs_rest(psv).len() by {
                    lemma_procs_rest_shape(s, pos as int, psv);
                    assert(proc_views(tailv) == psv.skip(1));
                    assert(proc_views(ps@) =~= psv);
                }
            }
            Some((ps, p2))
        },
        None => None,
    }
}

/// Parse a whole `top` array's contents, up to (not including) the closing
/// bracket.
#[verifier::rlimit(100)]
fn parse_procs_at(input: &Vec<u8>, pos: usize) -> (r: Option<(Vec<LogProc>, usize)>)
    requires
        pos <= input@.len(),
    ensures
        (match r {
            Option::Some((ps, p2)) => {
                &&& pos <= p2 < input@.len()
                &&& input@.subrange(pos as int, p2 as int) == render_procs(proc_views(ps@))
                &&& input@[p2 as int] == 93
            },
            Option::None => true,
        }),
        forall|psv: Seq<LogProcView>| procs_at(input@, pos as int, psv)
            ==> (match r {
                Option::Some((ps, p2)) => proc_views(ps@) == psv
                    && p2 == pos + render_procs(psv).len(),
                Option::None => false,
            }),
{
    let ghost s = input@;
    let len = input.len();
    if pos == len {
        return None;
    }
    let b = input[pos];
    if b == 93 {
        let ps: Vec<LogProc> = Vec::new();
        proof {
            assert(proc_views(ps@) =~= Seq::<LogProcView>::empty());
            assert(s.subrange(pos as int, pos as int) =~= render_procs(proc_views(ps@)));
            assert forall|psv: Seq<LogProcView>| procs_at(s, pos as int, psv)
                implies proc_views(ps@) == psv
                    && pos as int == pos + render_procs(psv).len() by {
                if psv.len() > 0 {
                    lemma_procs_shape(s, pos as int, psv);
                }
                assert(psv =~= proc_views(ps@));
            }
        }
        return Some((ps, pos));
    }
    proof {
        assert forall|psv: Seq<LogProcView>| procs_at(s, pos as int, psv)
            implies psv.len() > 0 && proc_at(s, pos as int, psv[0])
                && procs_rest_at(
                    s,
                    pos as int + render_proc(psv[0]).len() as int,
                    psv.skip(1),
                ) by {
            if psv.len() > 0 {
                lemma_procs_shape(s, pos as int, psv);
            }
        }
    }
    let first = parse_proc_at(input, pos);
    let (head, q) = match first {
        Some(pair) => pair,
        None => {
            return None;
        },
    };
    let rest = parse_procs_rest_at(input, q);
    match rest {
        Some((tail, p2)) => {
            let ghost tailv = tail@;
            let mut ps = tail;
            ps.insert(0, head);
            proof {
                assert(proc_views(ps@) =~= seq![head@] + proc_views(tailv));
                assert(proc_views(ps@)[0] == head@);
                assert(proc_views(ps@).skip(1) =~= proc_views(tailv));
                lemma_subrange_split(s, pos as int, q as int, p2 as int);
                assert(s.subrange(pos as int, p2 as int)
                    =~= render_procs(proc_views(ps@)));
                assert forall|psv: Seq<LogProcView>| procs_at(s, pos as int, psv)
                    implies proc_views(ps@) == psv
                        && p2 == pos + render_procs(psv).len() by {
                    lemma_procs_shape(s, pos as int, psv);
                    assert(proc_views(tailv) == psv.skip(1));
                    assert(proc_views(ps@) =~= psv);
                }
            }
            Some((ps, p2))
        },
        None => None,
    }
}


/// The rendering of a record's scalar fields stands at the start of `s`.
pub open spec fn record_prefix_at(
    s: Seq<u8>,
    resource: ResourceKind,
    ts_start: u64,
    ts_end: u64,
    duration_secs: u64,
    peak: u64,
    threshold: u64,
) -> bool {
    let prefix = render_record_prefix(resource, ts_start, ts_end, duration_secs, peak, threshold);
    &&& prefix.len() <= s.len()
    &&& s.subrange(0, prefix.len() as int) == prefix
}

/// How a record's rendered scalar prefix decomposes: each field stands
/// delimited at its computed offset.
#[verifier::rlimit(100)]
pub proof fn lemma_record_prefix_shape(
    s: Seq<u8>,
    resource: ResourceKind,
    ts_start: u64,
    ts_end: u64,
    duration_secs: u64,
    peak: u64,
    threshold: u64,
)
    requires
        record_prefix_at(s, resource, ts_start, ts_end, duration_secs, peak, threshold),
    ensures
        ({
            let q1 = lit_obj_resource().len() as int;
            let q2 = q1 + resource_word(resource).len();
            let q3 = q2 + lit_key_ts_start().len();
            let q4 = q3 + dec_digits(ts_start as nat).len();
            let q5 = q4 + lit_key_ts_end().len();
            let q6 = q5 + dec_digits(ts_end as nat).len();
            let q7 = q6 + lit_key_duration().len();
            let q8 = q7 + dec_digits(duration_secs as nat).len();
            let q9 = q8 + lit_key_peak().len();
            let q10 = q9 + fixed4_digits(peak).len();
            let q11 = q10 + lit_key_threshold().len();
            let q12 = q11 + fixed4_digits(threshold).len();
            let q13 = q12 + lit_key_top().len();
            &&& render_record_prefix(
                resource,
                ts_start,
                ts_end,
                duration_secs,
                peak,
                threshold,
            ).len() == q13
            &&& q13 <= s.len()
            &&& s.subrange(0, q1) == lit_obj_resource()
            &&& word_at(s, q1, resource)
            &&& s.subrange(q2, q3) == lit_key_ts_start()
            &&& number_at(s, q3, ts_start)
            &&& s.subrange(q4, q5) == lit_key_ts_end()
            &&& number_at(s, q5, ts_end)
            &&& s.subrange(q6, q7) == lit_key_duration()
            &&& number_at(s, q7, duration_secs)
            &&& s.subrange(q8, q9) == lit_key_peak()
            &&& fixed4_at(s, q9, peak)
            &&& s.subrange(q10, q11) == lit_key_threshold()
            &&& fixed4_at(s, q11, threshold)
            &&& s.subrange(q12, q13) == lit_key_top()
        }),
{
    let a = lit_obj_resource();
    let b = resource_word(resource);
    let c = lit_key_ts_start();
    let d = dec_digits(ts_start as nat);
    let e = lit_key_ts_end();
    let f = dec_digits(ts_end as nat);
    let g = lit_key_duration();
    let h = dec_digits(duration_secs as nat);
    let i = lit_key_peak();
    let j = fixed4_digits(peak);
    let k = lit_key_threshold();
    let l = fixed4_digits(threshold);
    let m = lit_key_top();
    let q1 = a.len() as int;
    let q2 = q1 + b.len();
    let q3 = q2 + c.len();
    let q4 = q3 + d.len();
    let q5 = q4 + e.len();
    let q6 = q5 + f.len();
    let q7 = q6 + g.len();
    let q8 = q7 + h.len();
    let q9 = q8 + i.len();
    let q10 = q9 + j.len();
    let q11 = q10 + k.len();
    let q12 = q11 + l.len();
    let q13 = q12 + m.len();

    assert((a + b).len() == a.len() + b.len());
    assert((a + b + c).len() == (a + b).len() + c.len());
    assert((a + b + c + d).len() == (a + b + c).len() + d.len());
    assert((a + b + c + d + e).len() == (a + b + c + d).len() + e.len());
    assert((a + b + c + d + e + f).len() == (a + b + c + d + e).len() + f.len());
    assert((a + b + c + d + e + f + g).len() == (a + b + c + d + e + f).len() + g.len());
    assert((a + b + c + d + e + f + g + h).len()
        == (a + b + c + d + e + f + g).len() + h.len());
    assert((a + b + c + d + e + f + g + h + i).len()
        == (a + b + c + d + e + f + g + h).len() + i.len());
    assert((a + b + c + d + e + f + g + h + i + j).len()
        == (a + b + c + d + e + f + g + h + i).len() + j.len());
    assert((a + b + c + d + e + f + g + h + i + j + k).len()
        == (a + b + c + d + e + f + g + h + i + j).len() + k.len());
    assert((a + b + c + d + e + f + g + h + i + j + k + l).len()
        == (a + b + c + d + e + f + g + h + i + j + k).len() + l.len());
    assert((a + b + c + d + e + f + g + h + i + j + k + l + m).len()
        == (a + b + c + d + e + f + g + h + i + j + k + l).len() + m.len());

    lemma_subrange_split(s, 0, q12, q13);
    lemma_concat_parts(
        s.subrange(0, q12),
        s.subrange(q12, q13),
        a + b + c + d + e + f + g + h + i + j + k + l,
        m,
    );
    lemma_subrange_split(s, 0, q11, q12);
    lemma_concat_parts(
        s.subrange(0, q11),
        s.subrange(q11, q12),
        a + b + c + d + e + f + g + h + i + j + k,
        l,
    );
    lemma_subrange_split(s, 0, q10, q11);
    lemma_concat_parts(
        s.subrange(0, q10),
        s.subrange(q10, q11),
        a + b + c + d + e + f + g + h + i + j,
        k,
    );
    lemma_subrange_split(s, 0, q9, q10);
    lemma_concat_parts(
        s.subrange(0, q9),
        s.subrange(q9, q10),
        a + b + c + d + e + f + g + h + i,
        j,
    );
    lemma_subrange_split(s, 0, q8, q9);
    lemma_concat_parts(
        s.subrange(0, q8),
        s.subrange(q8, q9),
        a + b + c + d + e + f + g + h,
        i,
    );
    lemma_subrange_split(s, 0, q7, q8);
    lemma_concat_parts(
        s.subrange(0, q7),
        s.subrange(q7, q8),
        a + b + c + d + e + f + g,
        h,
    );
    lemma_subrange_split(s, 0, q6, q7);
    lemma_concat_parts(s.subrange(0, q6), s.subrange(q6, q7), a + b + c + d + e + f, g);
    lemma_subrange_split(s, 0, q5, q6);
    lemma_concat_parts(s.subrange(0, q5), s.subrange(q5, q6), a + b + c + d + e, f);
    lemma_subrange_split(s, 0, q4, q5);
    lemma_concat_parts(s.subrange(0, q4), s.subrange(q4, q5), a + b + c + d, e);
    lemma_subrange_split(s, 0, q3, q4);
    lemma_concat_parts(s.subrange(0, q3), s.subrange(q3, q4), a + b + c, d);
    lemma_subrange_split(s, 0, q2, q3);
    lemma_concat_parts(s.subrange(0, q2), s.subrange(q2, q3), a + b, c);
    lemma_subrange_split(s, 0, q1, q2);
    lemma_concat_parts(s.subrange(0, q1), s.subrange(q1, q2), a, b);

    lemma_dec_digits_are_digits(ts_start as nat);
    lemma_dec_digits_are_digits(ts_end as nat);
    lemma_dec_digits_are_digits(duration_secs as nat);
    assert(s[q4] == lit_key_ts_end()[0]) by {
        assert(s.subrange(q4, q5)[0] == e[0]);
    }
    assert(s[q6] == lit_key_duration()[0]) by {
        assert(s.subrange(q6, q7)[0] == g[0]);
    }
    assert(s[q8] == lit_key_peak()[0]) by {
        assert(s.subrange(q8, q9)[0] == i[0]);
    }
    assert(number_at(s, q3, ts_start));
    assert(number_at(s, q5, ts_end));
    assert(number_at(s, q7, duration_secs));
}

/// How a whole rendered record splits: its scalar prefix, then the `top`
/// array's contents closed by a bracket, then the closing brackets, and
/// nothing after them.
pub proof fn lemma_record_shape(s: Seq<u8>, rv: LogRecordView)
    requires
        s == render_record(rv),
    ensures
        ({
            let prefix = render_record_prefix(
                rv.resource,
                rv.ts_start,
                rv.ts_end,
                rv.duration_secs,
                rv.peak,
                rv.threshold,
            );
            let q13 = prefix.len() as int;
            let q14 = q13 + render_procs(rv.top).len();
            let q15 = q14 + lit_rec_close().len();
            &&& s.len() == q15
            &&& record_prefix_at(
                s,
                rv.resource,
                rv.ts_start,
                rv.ts_end,
                rv.duration_secs,
                rv.peak,
                rv.threshold,
            )
            &&& procs_at(s, q13, rv.top)
            &&& s.subrange(q14, q15) == lit_rec_close()
        }),
{
    let prefix = render_record_prefix(
        rv.resource,
        rv.ts_start,
        rv.ts_end,
        rv.duration_secs,
        rv.peak,
        rv.threshold,
    );
    let procs = render_procs(rv.top);
    let close = lit_rec_close();
    let q13 = prefix.len() as int;
    let q14 = q13 + procs.len();
    let q15 = q14 + close.len();
    assert((prefix + procs).len() == prefix.len() + procs.len());
    assert((prefix + procs + close).len() == (prefix + procs).len() + close.len());
    assert(s.len() == q15);
    lemma_subrange_split(s, 0, q14, q15);
    assert(s.subrange(0, q15) =~= s);
    lemma_concat_parts(s.subrange(0, q14), s.subrange(q14, q15), prefix + procs, close);
    lemma_subrange_split(s, 0, q13, q14);
    lemma_concat_parts(s.subrange(0, q13), s.subrange(q13, q14), prefix, procs);
    assert(s[q14] == close[0]) by {
        assert(s.subrange(q14, q15)[0] == close[0]);
    }
    assert(procs_at(s, q13, rv.top));
}

/// Parse a record's scalar fields, up to and including the opening of the
/// `top` array.
#[verifier::rlimit(100)]
fn parse_record_prefix(input: &Vec<u8>) -> (r: Option<((ResourceKind, u64, u64, u64, u64, u64), usize)>)
    ensures
        (match r {
            Option::Some((f, p)) => {
                &&& p <= input@.len()
                &&& p == render_record_prefix(f.0, f.1, f.2, f.3, f.4, f.5).len()
                &&& input@.subrange(0, p as int)
                    == render_record_prefix(f.0, f.1, f.2, f.3, f.4, f.5)
            },
            Option::None => true,
        }),
        forall|res: ResourceKind, a: u64, bb: u64, cc: u64, dd: u64, ee: u64|
            record_prefix_at(input@, res, a, bb, cc, dd, ee)
                ==> (match r {
                    Option::Some((f, p)) => f == (res, a, bb, cc, dd, ee)
                        && p == render_record_prefix(res, a, bb, cc, dd, ee).len(),
                    Option::None => false,
                }),
{
    let ghost s = input@;

    let lit_open = build_lit_obj_resource();
    let q1 = match expect_at(input, 0, &lit_open) {
        Some(p) => p,
        None => {
            proof {
                assert forall|res: ResourceKind, a: u64, bb: u64, cc: u64, dd: u64, ee: u64|
                    !record_prefix_at(s, res, a, bb, cc, dd, ee) by {
                    if record_prefix_at(s, res, a, bb, cc, dd, ee) {
                        lemma_record_prefix_shape(s, res, a, bb, cc, dd, ee);
                    }
                }
            }
            return None;
        },
    };
    let (resource, q2) = match parse_resource_at(input, q1) {
        Some(pair) => pair,
        None => {
            proof {
                assert forall|res: ResourceKind, a: u64, bb: u64, cc: u64, dd: u64, ee: u64|
                    !record_prefix_at(s, res, a, bb, cc, dd, ee) by {
                    if record_prefix_at(s, res, a, bb, cc, dd, ee) {
                        lemma_record_prefix_shape(s, res, a, bb, cc, dd, ee);
                    }
                }
            }
            return None;
        },
    };
    let lit_ts_start = build_lit_key_ts_start();
    let q3 = match expect_at(input, q2, &lit_ts_start) {
        Some(p) => p,
        None => {
            proof {
                assert forall|res: ResourceKind, a: u64, bb: u64, cc: u64, dd: u64, ee: u64|
                    !record_prefix_at(s, res, a, bb, cc, dd, ee) by {
                    if record_prefix_at(s, res, a, bb, cc, dd, ee) {
                        lemma_record_prefix_shape(s, res, a, bb, cc, dd, ee);
                    }
                }
            }
            return None;
        },
    };
    let (ts_start, q4) = match parse_u64_at(input, q3) {
        Some(pair) => pair,
        None => {
            proof {
                assert forall|res: ResourceKind, a: u64, bb: u64, cc: u64, dd: u64, ee: u64|
                    !record_prefix_at(s, res, a, bb, cc, dd, ee) by {
                    if record_prefix_at(s, res, a, bb, cc, dd, ee) {
                        lemma_record_prefix_shape(s, res, a, bb, cc, dd, ee);
                    }
                }
            }
            return None;
        },
    };
    let lit_ts_end = build_lit_key_ts_end();
    let q5 = match expect_at(input, q4, &lit_ts_end) {
        Some(p) => p,
        None => {
            proof {
                assert forall|res: ResourceKind, a: u64, bb: u64, cc: u64, dd: u64, ee: u64|
                    !record_prefix_at(s, res, a, bb, cc, dd, ee) by {
                    if record_prefix_at(s, res, a, bb, cc, dd, ee) {
                        lemma_record_prefix_shape(s, res, a, bb, cc, dd, ee);
                    }
                }
            }
            return None;
        },
    };
    let (ts_end, q6) = match parse_u64_at(input, q5) {
        Some(pair) => pair,
        None => {
            proof {
                assert forall|res: ResourceKind, a: u64, bb: u64, cc: u64, dd: u64, ee: u64|
                    !record_prefix_at(s, res, a, bb, cc, dd, ee) by {
                    if record_prefix_at(s, res, a, bb, cc, dd, ee) {
                        lemma_record_prefix_shape(s, res, a, bb, cc, dd, ee);
                    }
                }
            }
            return None;
        },
    };
    let lit_duration = build_lit_key_duration();
    let q7 = match expect_at(input, q6, &lit_duration) {
        Some(p) => p,
        None => {
            proof {
                assert forall|res: ResourceKind, a: u64, bb: u64, cc: u64, dd: u64, ee: u64|
                    !record_prefix_at(s, res, a, bb, cc, dd, ee) by {
                    if record_prefix_at(s, res, a, bb, cc, dd, ee) {
                        lemma_record_prefix_shape(s, res, a, bb, cc, dd, ee);
                    }
                }
            }
            return None;
        },
    };
    let (duration_secs, q8) = match parse_u64_at(input, q7) {
        Some(pair) => pair,
        None => {
            proof {
                assert forall|res: ResourceKind, a: u64, bb: u64, cc: u64, dd: u64, ee: u64|
                    !record_prefix_at(s, res, a, bb, cc, dd, ee) by {
                    if record_prefix_at(s, res, a, bb, cc, dd, ee) {
                        lemma_record_prefix_shape(s, res, a, bb, cc, dd, ee);
                    }
                }
            }
            return None;
        },
    };
    let lit_peak = build_lit_key_peak();
    let q9 = match expect_at(input, q8, &lit_peak) {
        Some(p) => p,
        None => {
            proof {
                assert forall|res: ResourceKind, a: u64, bb: u64, cc: u64, dd: u64, ee: u64|
                    !record_prefix_at(s, res, a, bb, cc, dd, ee) by {
                    if record_prefix_at(s, res, a, bb, cc, dd, ee) {
                        lemma_record_prefix_shape(s, res, a, bb, cc, dd, ee);
                    }
                }
            }
            return None;
        },
    };
    let (peak, q10) = match parse_fixed4_at(input, q9) {
        Some(pair) => pair,
        None => {
            proof {
                assert forall|res: ResourceKind, a: u64, bb: u64, cc: u64, dd: u64, ee: u64|
                    !record_prefix_at(s, res, a, bb, cc, dd, ee) by {
                    if record_prefix_at(s, res, a, bb, cc, dd, ee) {
                        lemma_record_prefix_shape(s, res, a, bb, cc, dd, ee);
                    }
                }
            }
            return None;
        },
    };
    let lit_threshold = build_lit_key_threshold();
    let q11 = match expect_at(input, q10, &lit_threshold) {
        Some(p) => p,
        None => {
            proof {
                assert forall|res: ResourceKind, a: u64, bb: u64, cc: u64, dd: u64, ee: u64|
                    !record_prefix_at(s, res, a, bb, cc, dd, ee) by {
                    if record_prefix_at(s, res, a, bb, cc, dd, ee) {
                        lemma_record_prefix_shape(s, res, a, bb, cc, dd, ee);
                    }
                }
            }
            return None;
        },
    };
    let (threshold, q12) = match parse_fixed4_at(input, q11) {
        Some(pair) => pair,
        None => {
            proof {
                assert forall|res: ResourceKind, a: u64, bb: u64, cc: u64, dd: u64, ee: u64|
                    !record_prefix_at(s, res, a, bb, cc, dd, ee) by {
                    if record_prefix_at(s, res, a, bb, cc, dd, ee) {
                        lemma_record_prefix_shape(s, res, a, bb, cc, dd, ee);
                    }
                }
            }
            return None;
        },
    };
    let lit_top_key = build_lit_key_top();
    let q13 = match expect_at(input, q12, &lit_top_key) {
        Some(p) => p,
        None => {
            proof {
                assert forall|res: ResourceKind, a: u64, bb: u64, cc: u64, dd: u64, ee: u64|
                    !record_prefix_at(s, res, a, bb, cc, dd, ee) by {
                    if record_prefix_at(s, res, a, bb, cc, dd, ee) {
                        lemma_record_prefix_shape(s, res, a, bb, cc, dd, ee);
                    }
                }
            }
            return None;
        },
    };

    proof {
        lemma_subrange_split(s, 0, q1 as int, q2 as int);
        lemma_subrange_split(s, 0, q2 as int, q3 as int);
        lemma_subrange_split(s, 0, q3 as int, q4 as int);
        lemma_subrange_split(s, 0, q4 as int, q5 as int);
        lemma_subrange_split(s, 0, q5 as int, q6 as int);
        lemma_subrange_split(s, 0, q6 as int, q7 as int);
        lemma_subrange_split(s, 0, q7 as int, q8 as int);
        lemma_subrange_split(s, 0, q8 as int, q9 as int);
        lemma_subrange_split(s, 0, q9 as int, q10 as int);
        lemma_subrange_split(s, 0, q10 as int, q11 as int);
        lemma_subrange_split(s, 0, q11 as int, q12 as int);
        lemma_subrange_split(s, 0, q12 as int, q13 as int);
        assert(s.subrange(0, q13 as int)
            == render_record_prefix(resource, ts_start, ts_end, duration_secs, peak, threshold));
        assert forall|res: ResourceKind, a: u64, bb: u64, cc: u64, dd: u64, ee: u64|
            record_prefix_at(s, res, a, bb, cc, dd, ee)
                implies (resource, ts_start, ts_end, duration_secs, peak, threshold)
                    == (res, a, bb, cc, dd, ee)
                    && q13 == render_record_prefix(res, a, bb, cc, dd, ee).len() by {
            lemma_record_prefix_shape(s, res, a, bb, cc, dd, ee);
        }
    }
    Some(((resource, ts_start, ts_end, duration_secs, peak, threshold), q13))
}

/// Parse one log line (without its newline) as a record.
///
/// The parser accepts exactly the canonical renderings: on success the whole
/// input is the canonical rendering of the returned record, and whenever the
/// input is the rendering of some record, parsing succeeds and returns
/// exactly that record. Together with `render_record_line` this is the
/// round-trip guarantee of the log format: every field written is recovered.
#[verifier::rlimit(100)]
pub fn parse_record(input: &Vec<u8>) -> (r: Option<LogRecord>)
    ensures
        (match r {
            Option::Some(rec) => input@ == render_record(rec@),
            Option::None => true,
        }),
        forall|rv: LogRecordView| input@ == render_record(rv)
            ==> (match r {
                Option::Some(rec) => rec@ == rv,
                Option::None => false,
            }),
{
    let ghost s = input@;
    let len = input.len();

    let (fields, q13) = match parse_record_prefix(input) {
        Some(pair) => pair,
        None => {
            proof {
                assert forall|rv: LogRecordView| s != render_record(rv) by {
                    if s == render_record(rv) {
                        lemma_record_shape(s, rv);
                    }
                }
            }
            return None;
        },
    };
    let (resource, ts_start, ts_end, duration_secs, peak, threshold) = fields;
    let (top, q14) = match parse_procs_at(input, q13) {
        Some(pair) => pair,
        None => {
            proof {
                assert forall|rv: LogRecordView| s != render_record(rv) by {
                    if s == render_record(rv) {
                        lemma_record_shape(s, rv);
                    }
                }
            }
            return None;
        },
    };
    let lit_close = build_lit_rec_close();
    let q15 = match expect_at(input, q14, &lit_close) {
        Some(p) => p,
        None => {
            proof {
                assert forall|rv: LogRecordView| s != render_record(rv) by {
                    if s == render_record(rv) {
                        lemma_record_shape(s, rv);
                    }
                }
            }
            return None;
        },
    };
    if q15 != len {
        proof {
            assert forall|rv: LogRecordView| s != render_record(rv) by {
                if s == render_record(rv) {
                    lemma_record_shape(s, rv);
                }
            }
        }
        return None;
    }

    let rec = LogRecord { resource, ts_start, ts_end, duration_secs, peak, threshold, top };
    proof {
        lemma_subrange_split(s, 0, q13 as int, q14 as int);
        lemma_subrange_split(s, 0, q14 as int, q15 as int);
        assert(rec@.top =~= proc_views(top@));
        assert(s.subrange(0, len as int) =~= s);
        assert(s == render_record(rec@));
        assert forall|rv: LogRecordView| s == render_record(rv)
            implies rec@ == rv by {
            lemma_record_shape(s, rv);
            assert(rec@ =~= rv);
        }
    }
    Some(rec)
}

} // verus!
