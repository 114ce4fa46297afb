//! The Medit mesh format: an in-memory mesh, its ASCII text form and its
//! little-endian binary form.
//!
//! Coordinates are exact decimal numbers (sign, mantissa and decimal
//! scale), so the ASCII form can be parsed and re-serialized without loss.
//! The binary form encodes each coordinate as an IEEE-754 double computed
//! in integer arithmetic.

use vstd::prelude::*;
use vstd::arithmetic::power2::pow2;
use crate::error::Error;

verus! {

/// Powers of ten.
pub open spec fn pow10(n: nat) -> int
    decreases n,
{
    if n == 0 {
        1
    } else {
        10 * pow10((n - 1) as nat)
    }
}

proof fn lemma_pow10_pos(n: nat)
    ensures
        pow10(n) >= 1,
    decreases n,
{
    if n > 0 {
        lemma_pow10_pos((n - 1) as nat);
    }
}

proof fn lemma_pow10_19()
    ensures
        pow10(19) == 10_000_000_000_000_000_000,
{
    reveal_with_fuel(pow10, 21);
}

/// The decimal digits of a number, most significant first.
pub open spec fn spec_u64_digits(n: nat) -> Seq<u8>
    decreases n,
{
    if n < 10 {
        seq![(48 + n) as u8]
    } else {
        spec_u64_digits(n / 10).push((48 + (n % 10)) as u8)
    }
}

/// The decimal digits of a number, zero-padded to a fixed width.
pub open spec fn spec_padded_digits(n: nat, width: nat) -> Seq<u8>
    decreases width,
{
    if width == 0 {
        Seq::empty()
    } else {
        spec_padded_digits(n / 10, (width - 1) as nat).push((48 + (n % 10)) as u8)
    }
}

/// Append the decimal digits of `n`.
pub fn push_u64(out: &mut Vec<u8>, n: u64)
    ensures
        final(out)@ == old(out)@ + spec_u64_digits(n as nat),
    decreases n,
{
    if n < 10 {
        out.push((48 + n) as u8);
        proof {
            assert(final(out)@ =~= old(out)@ + spec_u64_digits(n as nat));
        }
    } else {
        proof {
            vstd::arithmetic::div_mod::lemma_fundamental_div_mod(n as int, 10);
        }
        push_u64(out, n / 10);
        out.push((48 + (n % 10)) as u8);
        proof {
            assert(final(out)@ =~= old(out)@ + spec_u64_digits(n as nat));
        }
    }
}

/// Append the decimal digits of `n`, zero-padded to `width` digits.
pub fn push_padded(out: &mut Vec<u8>, n: u64, width: u32)
    ensures
        final(out)@ == old(out)@ + spec_padded_digits(n as nat, width as nat),
    decreases width,
{
    if width == 0 {
        proof {
            assert(final(out)@ =~= old(out)@ + spec_padded_digits(n as nat, 0));
        }
        return ;
    }
    proof {
        vstd::arithmetic::div_mod::lemma_fundamental_div_mod(n as int, 10);
    }
    push_padded(out, n / 10, width - 1);
    out.push((48 + (n % 10)) as u8);
    proof {
        assert(final(out)@ =~= old(out)@ + spec_padded_digits(n as nat, width as nat));
    }
}

/// An exact decimal number: `(-1)^neg * mantissa / 10^scale`.
#[derive(Clone, Copy, PartialEq, Eq, Structural, Debug)]
pub struct Decimal {
    pub neg: bool,
    pub mantissa: u64,
    pub scale: u32,
}

impl Decimal {
    /// The number is in canonical form: no trailing fractional zero, no
    /// negative zero, and small enough for exact binary conversion.
    pub open spec fn wf(self) -> bool {
        &&& self.scale <= 17
        &&& self.mantissa < 100_000_000_000_000_000
        &&& (self.scale > 0 ==> self.mantissa % 10 != 0)
        &&& (self.mantissa == 0 ==> !self.neg && self.scale == 0)
    }
}

/// The ASCII text of a decimal number: optional minus sign, integer part,
/// and for scaled numbers a point followed by the zero-padded fraction.
pub open spec fn spec_dec_bytes(d: Decimal) -> Seq<u8> {
    let sign: Seq<u8> = if d.neg {
        seq![45u8]
    } else {
        Seq::empty()
    };
    if d.scale == 0 {
        sign + spec_u64_digits(d.mantissa as nat)
    } else {
        sign + spec_u64_digits((d.mantissa as nat) / (pow10(d.scale as nat) as nat)) + seq![46u8]
            + spec_padded_digits((d.mantissa as nat) % (pow10(d.scale as nat) as nat),
        d.scale as nat)
    }
}

/// `10^n` as a machine word, for scales up to 19.
fn pow10_u64(n: u32) -> (r: u64)
    requires
        n <= 19,
    ensures
        r as int == pow10(n as nat),
{
    let mut r: u64 = 1;
    let mut i: u32 = 0;
    proof {
        lemma_pow10_19();
    }
    while i < n
        invariant
            0 <= i <= n <= 19,
            r as int == pow10(i as nat),
            pow10(19) == 10_000_000_000_000_000_000,
        decreases n - i,
    {
        proof {
            lemma_pow10_mono(i as nat + 1, 19);
        }
        r = r * 10;
        i = i + 1;
    }
    r
}

/// Powers of ten are monotone.
proof fn lemma_pow10_mono(a: nat, b: nat)
    requires
        a <= b,
    ensures
        pow10(a) <= pow10(b),
    decreases b - a,
{
    if a < b {
        lemma_pow10_mono(a, (b - 1) as nat);
        lemma_pow10_pos((b - 1) as nat);
    }
}

/// Append the ASCII text of a decimal number.
pub fn push_decimal(out: &mut Vec<u8>, d: Decimal)
    requires
        d.wf(),
    ensures
        final(out)@ == old(out)@ + spec_dec_bytes(d),
{
    if d.neg {
        out.push(45);
    }
    if d.scale == 0 {
        push_u64(out, d.mantissa);
        proof {
            assert(final(out)@ =~= old(out)@ + spec_dec_bytes(d));
        }
    } else {
        let p = pow10_u64(d.scale);
        proof {
            lemma_pow10_pos(d.scale as nat);
        }
        push_u64(out, d.mantissa / p);
        out.push(46);
        push_padded(out, d.mantissa % p, d.scale);
        proof {
            assert(final(out)@ =~= old(out)@ + spec_dec_bytes(d));
        }
    }
}

/// The ASCII text of a signed integer.
pub open spec fn spec_i64_bytes(v: int) -> Seq<u8> {
    if v < 0 {
        seq![45u8] + spec_u64_digits((-v) as nat)
    } else {
        spec_u64_digits(v as nat)
    }
}

/// Append the ASCII text of a signed integer.
pub fn push_i64(out: &mut Vec<u8>, v: i64)
    ensures
        final(out)@ == old(out)@ + spec_i64_bytes(v as int),
{
    if v < 0 {
        out.push(45);
        let mag: u64 = (-(v as i128)) as u64;
        push_u64(out, mag);
        proof {
            assert(final(out)@ =~= old(out)@ + spec_i64_bytes(v as int));
        }
    } else {
        push_u64(out, v as u64);
    }
}


/// The element kinds of a Medit mesh.
#[derive(Clone, Copy, PartialEq, Eq, Structural, Debug)]
pub enum ElementType {
    Vertex,
    Edge,
    Triangle,
    Quadrangle,
    Quadrilateral,
    Tetrahedron,
    Hexahedron,
}

impl ElementType {
    /// How many nodes one element of this kind references.
    pub open spec fn spec_node_count(self) -> int {
        match self {
            ElementType::Vertex => 1,
            ElementType::Edge => 2,
            ElementType::Triangle => 3,
            ElementType::Quadrangle => 4,
            ElementType::Quadrilateral => 4,
            ElementType::Tetrahedron => 4,
            ElementType::Hexahedron => 8,
        }
    }

    /// How many nodes one element of this kind references.
    pub fn node_count(self) -> (r: usize)
        ensures
            r == self.spec_node_count(),
    {
        match self {
            ElementType::Vertex => 1,
            ElementType::Edge => 2,
            ElementType::Triangle => 3,
            ElementType::Quadrangle => 4,
            ElementType::Quadrilateral => 4,
            ElementType::Tetrahedron => 4,
            ElementType::Hexahedron => 8,
        }
    }

    /// The topological dimension of this element kind.
    pub open spec fn spec_dimension(self) -> int {
        match self {
            ElementType::Vertex => 0,
            ElementType::Edge => 1,
            ElementType::Triangle => 2,
            ElementType::Quadrangle => 2,
            ElementType::Quadrilateral => 2,
            ElementType::Tetrahedron => 3,
            ElementType::Hexahedron => 3,
        }
    }

    /// The topological dimension of this element kind.
    pub fn dimension(self) -> (r: usize)
        ensures
            r == self.spec_dimension(),
    {
        match self {
            ElementType::Vertex => 0,
            ElementType::Edge => 1,
            ElementType::Triangle => 2,
            ElementType::Quadrangle => 2,
            ElementType::Quadrilateral => 2,
            ElementType::Tetrahedron => 3,
            ElementType::Hexahedron => 3,
        }
    }

    /// The keyword code of this element kind in the binary format.
    pub open spec fn spec_code(self) -> int {
        match self {
            ElementType::Vertex => 4,
            ElementType::Edge => 5,
            ElementType::Triangle => 6,
            ElementType::Quadrangle => 7,
            ElementType::Quadrilateral => 7,
            ElementType::Tetrahedron => 8,
            ElementType::Hexahedron => 9,
        }
    }

    /// The keyword code of this element kind in the binary format.
    pub fn code(self) -> (r: i64)
        ensures
            r == self.spec_code(),
    {
        match self {
            ElementType::Vertex => 4,
            ElementType::Edge => 5,
            ElementType::Triangle => 6,
            ElementType::Quadrangle => 7,
            ElementType::Quadrilateral => 7,
            ElementType::Tetrahedron => 8,
            ElementType::Hexahedron => 9,
        }
    }
}

/// The section keyword of an element kind in the ASCII format.
pub open spec fn spec_type_name(t: ElementType) -> Seq<u8> {
    match t {
        ElementType::Vertex => seq![86u8, 101u8, 114u8, 116u8, 105u8, 99u8, 101u8, 115u8],
        ElementType::Edge => seq![69u8, 100u8, 103u8, 101u8, 115u8],
        ElementType::Triangle => seq![84u8, 114u8, 105u8, 97u8, 110u8, 103u8, 108u8, 101u8, 115u8],
        ElementType::Quadrangle => seq![81u8, 117u8, 97u8, 100u8, 114u8, 97u8, 110u8, 103u8, 108u8, 101u8, 115u8],
        ElementType::Quadrilateral => seq![81u8, 117u8, 97u8, 100u8, 114u8, 105u8, 108u8, 97u8, 116u8, 101u8, 114u8, 97u8, 108u8, 115u8],
        ElementType::Tetrahedron => seq![84u8, 101u8, 116u8, 114u8, 97u8, 104u8, 101u8, 100u8, 114u8, 97u8],
        ElementType::Hexahedron => seq![72u8, 101u8, 120u8, 97u8, 104u8, 101u8, 100u8, 114u8, 97u8],
    }
}

/// Append the section keyword of an element kind.
fn push_type_name(out: &mut Vec<u8>, t: ElementType)
    ensures
        final(out)@ == old(out)@ + spec_type_name(t),
{
    match t {
        ElementType::Vertex => {
            out.push(86);
            out.push(101);
            out.push(114);
            out.push(116);
            out.push(105);
            out.push(99);
            out.push(101);
            out.push(115);
        },
        ElementType::Edge => {
            out.push(69);
            out.push(100);
            out.push(103);
            out.push(101);
            out.push(115);
        },
        ElementType::Triangle => {
            out.push(84);
            out.push(114);
            out.push(105);
            out.push(97);
            out.push(110);
            out.push(103);
            out.push(108);
            out.push(101);
            out.push(115);
        },
        ElementType::Quadrangle => {
            out.push(81);
            out.push(117);
            out.push(97);
            out.push(100);
            out.push(114);
            out.push(97);
            out.push(110);
            out.push(103);
            out.push(108);
            out.push(101);
            out.push(115);
        },
        ElementType::Quadrilateral => {
            out.push(81);
            out.push(117);
            out.push(97);
            out.push(100);
            out.push(114);
            out.push(105);
            out.push(108);
            out.push(97);
            out.push(116);
            out.push(101);
            out.push(114);
            out.push(97);
            out.push(108);
            out.push(115);
        },
        ElementType::Tetrahedron => {
            out.push(84);
            out.push(101);
            out.push(116);
            out.push(114);
            out.push(97);
            out.push(104);
            out.push(101);
            out.push(100);
            out.push(114);
            out.push(97);
        },
        ElementType::Hexahedron => {
            out.push(72);
            out.push(101);
            out.push(120);
            out.push(97);
            out.push(104);
            out.push(101);
            out.push(100);
            out.push(114);
            out.push(97);
        },
    }
    proof {
        assert(final(out)@ =~= old(out)@ + spec_type_name(t));
    }
}

/// A mesh: node coordinates (row per node), node references, and element
/// blocks, each a kind with its node lists and element references.
pub struct Mesh {
    pub dimension: usize,
    pub coordinates: Vec<Decimal>,
    pub node_refs: Vec<i64>,
    pub topology: Vec<(ElementType, Vec<usize>, Vec<i64>)>,
}

impl Mesh {
    /// The stored arrays are consistent: one coordinate row per node, one
    /// node list entry per element node, all node indices valid, all
    /// coordinates canonical, and all counts small enough for the binary
    /// byte positions to fit.
    pub open spec fn wf(self) -> bool {
        &&& (self.dimension == 2 || self.dimension == 3)
        &&& self.coordinates@.len() == self.node_refs@.len() * self.dimension
        &&& self.node_refs@.len() <= 0xFFFF_FFFF
        &&& self.topology@.len() <= 0xFFFF
        &&& forall|i: int|
            0 <= i < self.coordinates@.len() ==> (#[trigger] self.coordinates@[i]).wf()
        &&& forall|k: int|
            0 <= k < self.topology@.len() ==> {
                let b = #[trigger] self.topology@[k];
                &&& b.1@.len() == b.2@.len() * b.0.spec_node_count()
                &&& b.2@.len() <= 0xFFFF_FFFF
                &&& forall|u: int|
                    0 <= u < b.1@.len() ==> (#[trigger] b.1@[u]) < self.node_refs@.len()
            }
    }
}

/// One ASCII row of coordinates: a space before each of the `j` first
/// entries of the node's row.
pub open spec fn spec_coord_cells(coords: Seq<Decimal>, base: int, j: int) -> Seq<u8>
    decreases j,
{
    if j <= 0 {
        Seq::empty()
    } else {
        spec_coord_cells(coords, base, j - 1) + seq![32u8] + spec_dec_bytes(coords[base + j - 1])
    }
}

/// The ASCII node rows: each node's coordinates then its reference.
pub open spec fn spec_node_rows(m: Mesh, i: int) -> Seq<u8>
    decreases i,
{
    if i <= 0 {
        Seq::empty()
    } else {
        spec_node_rows(m, i - 1) + spec_coord_cells(
            m.coordinates@,
            (i - 1) * m.dimension,
            m.dimension as int,
        ) + seq![32u8] + spec_i64_bytes(m.node_refs@[i - 1] as int) + seq![10u8]
    }
}

/// One ASCII element row: the 1-based node numbers, space-separated.
pub open spec fn spec_elem_cells(nodes: Seq<usize>, base: int, j: int) -> Seq<u8>
    decreases j,
{
    if j <= 0 {
        Seq::empty()
    } else {
        spec_elem_cells(nodes, base, j - 1) + seq![32u8] + spec_u64_digits(
            (nodes[base + j - 1] + 1) as nat,
        )
    }
}

/// The ASCII element rows of one block.
pub open spec fn spec_elem_rows(b: (ElementType, Vec<usize>, Vec<i64>), i: int) -> Seq<u8>
    decreases i,
{
    if i <= 0 {
        Seq::empty()
    } else {
        spec_elem_rows(b, i - 1) + spec_elem_cells(
            b.1@,
            (i - 1) * b.0.spec_node_count(),
            b.0.spec_node_count(),
        ) + seq![32u8] + spec_i64_bytes(b.2@[i - 1] as int) + seq![10u8]
    }
}

/// The ASCII element blocks: keyword, count and rows of each.
pub open spec fn spec_topo_blocks(m: Mesh, k: int) -> Seq<u8>
    decreases k,
{
    if k <= 0 {
        Seq::empty()
    } else {
        let b = m.topology@[k - 1];
        spec_topo_blocks(m, k - 1) + seq![10u8] + spec_type_name(b.0) + seq![10u8, 9u8]
            + spec_u64_digits(b.2@.len() as nat) + seq![10u8] + spec_elem_rows(b, b.2@.len() as int)
    }
}

/// The complete ASCII text of a mesh.
pub open spec fn spec_mesh_ascii(m: Mesh) -> Seq<u8> {
    seq![77u8, 101u8, 115u8, 104u8, 86u8, 101u8, 114u8, 115u8, 105u8, 111u8, 110u8, 70u8, 111u8, 114u8, 109u8, 97u8, 116u8, 116u8, 101u8, 100u8, 32u8, 50u8, 10u8, 68u8, 105u8, 109u8, 101u8, 110u8, 115u8, 105u8, 111u8, 110u8, 32u8] + spec_u64_digits(m.dimension as nat)
        + seq![10u8, 10u8, 86u8, 101u8, 114u8, 116u8, 105u8, 99u8, 101u8, 115u8, 10u8, 9u8] + spec_u64_digits(m.node_refs@.len() as nat)
        + seq![10u8] + spec_node_rows(m, m.node_refs@.len() as int) + spec_topo_blocks(
        m,
        m.topology@.len() as int,
    ) + seq![10u8, 69u8, 110u8, 100u8]
}

impl Mesh {
    /// The ASCII text of the mesh, exactly as [`spec_mesh_ascii`] lays it
    /// out.
    #[verifier::rlimit(60)]
    pub fn to_ascii(&self) -> (out: Vec<u8>)
        requires
            self.wf(),
        ensures
            out@ == spec_mesh_ascii(*self),
    {
        let mut out: Vec<u8> = Vec::new();
        out.push(77);
        out.push(101);
        out.push(115);
        out.push(104);
        out.push(86);
        out.push(101);
        out.push(114);
        out.push(115);
        out.push(105);
        out.push(111);
        out.push(110);
        out.push(70);
        out.push(111);
        out.push(114);
        out.push(109);
        out.push(97);
        out.push(116);
        out.push(116);
        out.push(101);
        out.push(100);
        out.push(32);
        out.push(50);
        out.push(10);
        out.push(68);
        out.push(105);
        out.push(109);
        out.push(101);
        out.push(110);
        out.push(115);
        out.push(105);
        out.push(111);
        out.push(110);
        out.push(32);
        proof {
            assert(out@ =~= Seq::<u8>::empty() + seq![77u8, 101u8, 115u8, 104u8, 86u8, 101u8, 114u8, 115u8, 105u8, 111u8, 110u8, 70u8, 111u8, 114u8, 109u8, 97u8, 116u8, 116u8, 101u8, 100u8, 32u8, 50u8, 10u8, 68u8, 105u8, 109u8, 101u8, 110u8, 115u8, 105u8, 111u8, 110u8, 32u8]);
        }
        push_u64(&mut out, self.dimension as u64);
        out.push(10);
        out.push(10);
        out.push(86);
        out.push(101);
        out.push(114);
        out.push(116);
        out.push(105);
        out.push(99);
        out.push(101);
        out.push(115);
        out.push(10);
        out.push(9);
        let n = self.node_refs.len();
        push_u64(&mut out, n as u64);
        out.push(10);
        let ghost head = Seq::<u8>::empty() + seq![77u8, 101u8, 115u8, 104u8, 86u8, 101u8, 114u8, 115u8, 105u8, 111u8, 110u8, 70u8, 111u8, 114u8, 109u8, 97u8, 116u8, 116u8, 101u8, 100u8, 32u8, 50u8, 10u8, 68u8, 105u8, 109u8, 101u8, 110u8, 115u8, 105u8, 111u8, 110u8, 32u8]
            + spec_u64_digits(self.dimension as nat) + seq![10u8, 10u8, 86u8, 101u8, 114u8, 116u8, 105u8, 99u8, 101u8, 115u8, 10u8, 9u8]
            + spec_u64_digits(n as nat) + seq![10u8];
        proof {
            assert(out@ =~= head);
        }
        let mut i: usize = 0;
        while i < n
            invariant
                0 <= i <= n,
                n == self.node_refs@.len(),
                self.wf(),
                out@ == head + spec_node_rows(*self, i as int),
            decreases n - i,
        {
            let nc = self.coordinates.len();
            proof {
                assert((i as int) * (self.dimension as int) + (self.dimension as int) <= (
                n as int) * (self.dimension as int)) by (nonlinear_arith)
                    requires i < n, self.dimension >= 0;
                assert(0 <= (i as int) * (self.dimension as int)) by (nonlinear_arith)
                    requires i >= 0, self.dimension >= 0;
                assert((n as int) * (self.dimension as int) == nc as int);
            }
            let base = i * self.dimension;
            let mut j: usize = 0;
            while j < self.dimension
                invariant
                    0 <= j <= self.dimension,
                    i < n,
                    n == self.node_refs@.len(),
                    base == i as int * self.dimension as int,
                    nc == self.coordinates@.len(),
                    base + self.dimension <= nc,
                    self.wf(),
                    out@ == head + spec_node_rows(*self, i as int) + spec_coord_cells(
                        self.coordinates@,
                        base as int,
                        j as int,
                    ),
                decreases self.dimension - j,
            {
                out.push(32);
                push_decimal(&mut out, self.coordinates[base + j]);
                proof {
                    assert(out@ =~= head + spec_node_rows(*self, i as int) + spec_coord_cells(
                        self.coordinates@,
                        base as int,
                        j as int + 1,
                    ));
                }
                j = j + 1;
            }
            out.push(32);
            push_i64(&mut out, self.node_refs[i]);
            out.push(10);
            proof {
                assert(out@ =~= head + spec_node_rows(*self, i as int + 1));
            }
            i = i + 1;
        }
        let nt = self.topology.len();
        let mut k: usize = 0;
        while k < nt
            invariant
                0 <= k <= nt,
                nt == self.topology@.len(),
                n == self.node_refs@.len(),
                self.wf(),
                out@ == head + spec_node_rows(*self, n as int) + spec_topo_blocks(
                    *self,
                    k as int,
                ),
            decreases nt - k,
        {
            let ty = self.topology[k].0;
            let cnt = self.topology[k].2.len();
            out.push(10);
            push_type_name(&mut out, ty);
            out.push(10);
            out.push(9);
            push_u64(&mut out, cnt as u64);
            out.push(10);
            let ghost block_head = head + spec_node_rows(*self, n as int) + spec_topo_blocks(
                *self,
                k as int,
            ) + seq![10u8] + spec_type_name(ty) + seq![10u8, 9u8] + spec_u64_digits(cnt as nat)
                + seq![10u8];
            proof {
                assert(out@ =~= block_head);
            }
            let npe = ty.node_count();
            let mut e: usize = 0;
            while e < cnt
                invariant
                    0 <= e <= cnt,
                    k < nt,
                    nt == self.topology@.len(),
                    n == self.node_refs@.len(),
                    cnt == self.topology@[k as int].2@.len(),
                    ty == self.topology@[k as int].0,
                    npe == ty.spec_node_count(),
                    self.wf(),
                    out@ == block_head + spec_elem_rows(self.topology@[k as int], e as int),
                decreases cnt - e,
            {
                let nn = self.topology[k].1.len();
                proof {
                    assert((e as int) * (npe as int) + (npe as int) <= (cnt as int) * (
                    npe as int)) by (nonlinear_arith)
                        requires e < cnt, npe >= 0;
                    assert(0 <= (e as int) * (npe as int)) by (nonlinear_arith)
                        requires e >= 0, npe >= 0;
                    assert((cnt as int) * (npe as int) == nn as int);
                }
                let ebase = e * npe;
                let mut j: usize = 0;
                while j < npe
                    invariant
                        0 <= j <= npe,
                        k < nt,
                        nt == self.topology@.len(),
                        e < cnt,
                        cnt == self.topology@[k as int].2@.len(),
                        ty == self.topology@[k as int].0,
                        npe == ty.spec_node_count(),
                        ebase == e as int * npe as int,
                        nn == self.topology@[k as int].1@.len(),
                        ebase + npe <= nn,
                        self.wf(),
                        n == self.node_refs@.len(),
                        out@ == block_head + spec_elem_rows(self.topology@[k as int], e as int)
                            + spec_elem_cells(
                            self.topology@[k as int].1@,
                            ebase as int,
                            j as int,
                        ),
                    decreases npe - j,
                {
                    out.push(32);
                    let node = self.topology[k].1[ebase + j];
                    proof {
                        assert(self.topology@[k as int].1@[ebase + j] < n);
                    }
                    push_u64(&mut out, (node + 1) as u64);
                    proof {
                        assert(out@ =~= block_head + spec_elem_rows(
                            self.topology@[k as int],
                            e as int,
                        ) + spec_elem_cells(
                            self.topology@[k as int].1@,
                            ebase as int,
                            j as int + 1,
                        ));
                    }
                    j = j + 1;
                }
                out.push(32);
                push_i64(&mut out, self.topology[k].2[e]);
                out.push(10);
                proof {
                    assert(out@ =~= block_head + spec_elem_rows(
                        self.topology@[k as int],
                        e as int + 1,
                    ));
                }
                e = e + 1;
            }
            proof {
                assert(out@ =~= head + spec_node_rows(*self, n as int) + spec_topo_blocks(
                    *self,
                    k as int + 1,
                ));
            }
            k = k + 1;
        }
        out.push(10);
        out.push(69);
        out.push(110);
        out.push(100);
        proof {
            assert(out@ =~= spec_mesh_ascii(*self));
        }
        out
    }
}


/// The little-endian bytes of a 32-bit value.
pub open spec fn spec_le32(v: int) -> Seq<u8> {
    seq![
        (v % 256) as u8,
        ((v / 256) % 256) as u8,
        ((v / 65536) % 256) as u8,
        ((v / 16777216) % 256) as u8,
    ]
}

/// The little-endian bytes of an unsigned 64-bit value.
pub open spec fn spec_le64(v: int) -> Seq<u8> {
    seq![
        (v % 256) as u8,
        ((v / 0x100) % 256) as u8,
        ((v / 0x1_0000) % 256) as u8,
        ((v / 0x100_0000) % 256) as u8,
        ((v / 0x1_0000_0000) % 256) as u8,
        ((v / 0x100_0000_0000) % 256) as u8,
        ((v / 0x1_0000_0000_0000) % 256) as u8,
        ((v / 0x100_0000_0000_0000) % 256) as u8,
    ]
}

/// The little-endian bytes of a signed 64-bit value, two's complement.
pub open spec fn spec_le64_i(v: int) -> Seq<u8> {
    if v >= 0 {
        spec_le64(v)
    } else {
        spec_le64(v + 0x1_0000_0000_0000_0000)
    }
}

/// Append a small non-negative value as four little-endian bytes.
fn push_le32(out: &mut Vec<u8>, v: u32)
    ensures
        final(out)@ == old(out)@ + spec_le32(v as int),
{
    out.push((v % 256) as u8);
    out.push(((v / 256) % 256) as u8);
    out.push(((v / 65536) % 256) as u8);
    out.push(((v / 16777216) % 256) as u8);
    proof {
        assert(final(out)@ =~= old(out)@ + spec_le32(v as int));
    }
}

/// Append an unsigned value as eight little-endian bytes.
fn push_le64(out: &mut Vec<u8>, v: u64)
    ensures
        final(out)@ == old(out)@ + spec_le64(v as int),
{
    out.push((v % 256) as u8);
    out.push(((v / 0x100) % 256) as u8);
    out.push(((v / 0x1_0000) % 256) as u8);
    out.push(((v / 0x100_0000) % 256) as u8);
    out.push(((v / 0x1_0000_0000) % 256) as u8);
    out.push(((v / 0x100_0000_0000) % 256) as u8);
    out.push(((v / 0x1_0000_0000_0000) % 256) as u8);
    out.push(((v / 0x100_0000_0000_0000) % 256) as u8);
    proof {
        assert(final(out)@ =~= old(out)@ + spec_le64(v as int));
    }
}

/// Append a signed value as eight little-endian bytes, two's complement.
fn push_le64_i(out: &mut Vec<u8>, v: i64)
    ensures
        final(out)@ == old(out)@ + spec_le64_i(v as int),
{
    if v >= 0 {
        push_le64(out, v as u64);
    } else {
        let mag: u64 = (-(v as i128)) as u64;
        let u: u64 = (0xFFFF_FFFF_FFFF_FFFFu64 - mag) + 1;
        push_le64(out, u);
        proof {
            assert(u as int == v + 0x1_0000_0000_0000_0000);
        }
    }
}

/// `bits` is the IEEE-754 double closest to the decimal `d`, rounding to
/// nearest with ties to even: there is a binary scaling `2^k / 2^j` and a
/// 53-bit significand `q` such that `mantissa * 2^k / (10^scale * 2^j)`
/// lies in `[2^52, 2^53)`, `q` is within half a unit of it (ties choosing
/// the even `q`), and `bits` packs the sign, the biased exponent
/// `52 + j - k + 1023` and the significand.
pub open spec fn is_f64_bits(d: Decimal, bits: u64) -> bool {
    if d.mantissa == 0 {
        bits == 0
    } else {
        exists|k: nat, j: nat, q: int|
            #[trigger] f64_rounding(d.mantissa as nat, d.scale as nat, k, j, q) && bits as int
                == (if d.neg {
                0x8000_0000_0000_0000int
            } else {
                0
            }) + (52 + j - k + 1023) * 0x10_0000_0000_0000 + (q - 0x10_0000_0000_0000)
    }
}

/// The rounding relation behind [`is_f64_bits`]: scaled by `2^k / 2^j`,
/// the value `m / 10^s` lies in the binade `[2^52, 2^53)` and `q` is the
/// nearest 53-bit significand, ties to even.
pub open spec fn f64_rounding(m: nat, s: nat, k: nat, j: nat, q: int) -> bool {
    let num = (m as int) * pow2(k);
    let den = pow10(s) * pow2(j);
    &&& pow2(k) * pow2(j) >= 1
    &&& 0x10_0000_0000_0000 * den <= num < 0x20_0000_0000_0000 * den
    &&& 0x10_0000_0000_0000 <= q <= 0x20_0000_0000_0000
    &&& 2 * num - 2 * q * den <= den
    &&& 2 * q * den - 2 * num <= den
    &&& (2 * num - 2 * q * den == den || 2 * q * den - 2 * num == den) ==> q % 2 == 0
}

/// The IEEE-754 double bits of a canonical decimal, computed by integer
/// normalization and round-to-nearest-even.
#[verifier::rlimit(100)]
pub fn f64_bits(d: Decimal) -> (bits: u64)
    requires
        d.wf(),
    ensures
        is_f64_bits(d, bits),
{
    if d.mantissa == 0 {
        return 0;
    }
    let n0: u128 = d.mantissa as u128;
    let d0: u128 = pow10_u64(d.scale) as u128;
    proof {
        lemma_pow10_pos(d.scale as nat);
        lemma_pow10_mono(d.scale as nat, 17);
        reveal_with_fuel(pow10, 19);
        assert(pow10(17) == 100_000_000_000_000_000);
    }
    let mut num: u128 = n0;
    let mut den: u128 = d0;
    let mut k: u32 = 0;
    let mut j: u32 = 0;
    proof {
        vstd::arithmetic::power2::lemma2_to64();
        assert(pow2(0) == 1);
    }
    while num < 0x10_0000_0000_0000 * den
        invariant
            1 <= n0 < 0x200_0000_0000_0000,
            1 <= d0 <= 0x200_0000_0000_0000,
            num as int == (n0 as int) * pow2(k as nat),
            den == d0,
            j == 0,
            1 <= num,
            num as int <= 0x20_0000_0000_0000 * (den as int) || num == n0,
        decreases 0x20_0000_0000_0000 * (den as int) - num,
    {
        proof {
            vstd::arithmetic::power2::lemma_pow2_unfold((k + 1) as nat);
            assert((n0 as int) * pow2((k + 1) as nat) == 2 * ((n0 as int) * pow2(k as nat)))
                by (nonlinear_arith)
                requires pow2((k + 1) as nat) == 2 * pow2(k as nat);
            assert(2 * (num as int) < 2 * (0x10_0000_0000_0000 * (den as int)))
                by (nonlinear_arith)
                requires (num as int) < 0x10_0000_0000_0000 * (den as int);
            assert(2 * (0x10_0000_0000_0000 * (den as int)) == 0x20_0000_0000_0000 * (
            den as int)) by (nonlinear_arith);
            assert(0x20_0000_0000_0000 * (den as int) <= 0x20_0000_0000_0000
                * 0x200_0000_0000_0000) by (nonlinear_arith)
                requires den <= 0x200_0000_0000_0000;
            assert(k < 200) by {
                if k >= 200 {
                    vstd::arithmetic::power2::lemma2_to64();
                    vstd::arithmetic::power2::lemma_pow2_strictly_increases(128, k as nat);
                    vstd::arithmetic::power2::lemma_pow2_adds(64, 64);
                    assert((n0 as int) * pow2(k as nat) >= pow2(k as nat)) by (nonlinear_arith)
                        requires n0 >= 1, pow2(k as nat) >= 0;
                    assert(num as int >= pow2(128));
                    assert(pow2(128) == pow2(64) * pow2(64));
                    assert(pow2(64) * pow2(64) > u128::MAX) by (nonlinear_arith)
                        requires pow2(64) == 0x1_0000_0000_0000_0000;
                    assert(false);
                }
            }
        }
        num = num * 2;
        k = k + 1;
    }
    proof {
        assert((num as int) < 0x4_0000_0000_0000_0000_0000_0000_0000) by (nonlinear_arith)
            requires
                (num as int) <= 0x20_0000_0000_0000 * (den as int) || (num as int)
                    < 0x200_0000_0000_0000,
                den <= 0x200_0000_0000_0000;
    }
    while num >= 0x20_0000_0000_0000 * den
        invariant
            1 <= n0 < 0x200_0000_0000_0000,
            1 <= d0 <= 0x200_0000_0000_0000,
            num as int == (n0 as int) * pow2(k as nat),
            den as int == (d0 as int) * pow2(j as nat),
            (num as int) < 0x4_0000_0000_0000_0000_0000_0000_0000,
            1 <= den <= 0x4000_0000_0000_0000,
            0x10_0000_0000_0000 * (den as int) <= num as int || den == d0,
        decreases num as int - den,
    {
        proof {
            vstd::arithmetic::power2::lemma_pow2_unfold((j + 1) as nat);
            assert((d0 as int) * pow2((j + 1) as nat) == 2 * ((d0 as int) * pow2(j as nat)))
                by (nonlinear_arith)
                requires pow2((j + 1) as nat) == 2 * pow2(j as nat);
            assert(2 * (den as int) <= num as int && 2 * (den as int)
                <= 0x4000_0000_0000_0000 && 0x10_0000_0000_0000 * (2 * (den as int))
                <= num as int) by (nonlinear_arith)
                requires
                    0x20_0000_0000_0000 * (den as int) <= num as int,
                    den >= 1,
                    (num as int) < 0x4_0000_0000_0000_0000_0000_0000_0000;
            assert(j < 100) by {
                if j >= 100 {
                    vstd::arithmetic::power2::lemma2_to64();
                    vstd::arithmetic::power2::lemma2_to64_rest();
                    vstd::arithmetic::power2::lemma_pow2_strictly_increases(63, j as nat);
                    assert((d0 as int) * pow2(j as nat) >= pow2(j as nat)) by (nonlinear_arith)
                        requires d0 >= 1, pow2(j as nat) >= 0;
                    assert(den as int >= pow2(63));
                    assert(pow2(63) == 0x8000_0000_0000_0000);
                    assert(false);
                }
            }
        }
        den = den * 2;
        j = j + 1;
    }
    proof {
        assert(0x10_0000_0000_0000 * (den as int) <= num as int);
    }
    let q0: u128 = num / den;
    let r: u128 = num % den;
    proof {
        vstd::arithmetic::div_mod::lemma_fundamental_div_mod(num as int, den as int);
        assert(0x10_0000_0000_0000 <= (num as int) / (den as int) < 0x20_0000_0000_0000)
            by (nonlinear_arith)
            requires
                num as int == (den as int) * ((num as int) / (den as int)) + (num as int) % (
                den as int),
                0 <= (num as int) % (den as int) < den as int,
                0x10_0000_0000_0000 * (den as int) <= num as int,
                (num as int) < 0x20_0000_0000_0000 * (den as int),
                den >= 1;
    }
    let round_up: bool = 2 * r > den || (2 * r == den && q0 % 2 == 1);
    let q: u128 = if round_up {
        q0 + 1
    } else {
        q0
    };
    // The biased exponent 52 + j - k + 1023 is that of a normal double.
    proof {
        lemma_exponent_range(n0 as int, d0 as int, k as nat, j as nat, num as int, den as int);
    }
    let biased: u64 = ((52 + 1023 + j as i64) - k as i64) as u64;
    let sign: u64 = if d.neg {
        0x8000_0000_0000_0000
    } else {
        0
    };
    let bits: u64 = if q == 0x20_0000_0000_0000 {
        sign + (biased + 1) * 0x10_0000_0000_0000
    } else {
        sign + biased * 0x10_0000_0000_0000 + ((q as u64) - 0x10_0000_0000_0000)
    };
    proof {
        let kk = k as nat;
        let jj = j as nat;
        let qq = q as int;
        vstd::arithmetic::power2::lemma_pow2_pos(kk);
        vstd::arithmetic::power2::lemma_pow2_pos(jj);
        assert(pow2(kk) * pow2(jj) >= 1) by (nonlinear_arith)
            requires pow2(kk) >= 1, pow2(jj) >= 1;
        assert(num as int == (d.mantissa as int) * pow2(kk));
        assert(den as int == pow10(d.scale as nat) * pow2(jj));
        if q == 0x20_0000_0000_0000 {
            assert((52 + jj - kk + 1023 + 1) * 0x10_0000_0000_0000 == (52 + jj - kk + 1023)
                * 0x10_0000_0000_0000 + (qq - 0x10_0000_0000_0000)) by (nonlinear_arith)
                requires qq == 0x20_0000_0000_0000;
        }
        assert(2 * (num as int) - 2 * qq * (den as int) <= den as int && 2 * qq * (
        den as int) - 2 * (num as int) <= den as int && ((2 * (num as int) - 2 * qq * (
        den as int) == den as int || 2 * qq * (den as int) - 2 * (num as int)
            == den as int) ==> qq % 2 == 0)) by (nonlinear_arith)
            requires
                num as int == (den as int) * (q0 as int) + (r as int),
                0 <= r < den,
                den >= 1,
                qq == if (2 * r > den || (2 * r == den && q0 % 2 == 1)) {
                    q0 + 1
                } else {
                    q0 as int
                };
        assert(f64_rounding(d.mantissa as nat, d.scale as nat, kk, jj, qq));
        assert(is_f64_bits(d, bits));
    }
    bits
}

/// The biased exponent of a canonical decimal's double is in the normal
/// range.
proof fn lemma_exponent_range(n0: int, d0: int, k: nat, j: nat, num: int, den: int)
    requires
        1 <= n0 < 0x200_0000_0000_0000,
        1 <= d0 < 0x200_0000_0000_0000,
        num == n0 * pow2(k),
        den == d0 * pow2(j),
        0x10_0000_0000_0000 * den <= num,
        num < 0x20_0000_0000_0000 * den,
    ensures
        52 + 1023 + j >= k + 966,
        52 + 1023 + (j as int) - (k as int) <= 2000,
{
    vstd::arithmetic::power2::lemma_pow2_pos(k);
    vstd::arithmetic::power2::lemma_pow2_pos(j);
    vstd::arithmetic::power2::lemma2_to64();
    vstd::arithmetic::power2::lemma2_to64_rest();
    // Upper bound on j - k: 2^(52+j) d0 <= n0 2^k < 2^57 2^k d0.
    if 52 + (j as int) >= 57 + k {
        vstd::arithmetic::power2::lemma_pow2_adds(52, j);
        vstd::arithmetic::power2::lemma_pow2_adds(57, k);
        if 52 + (j as int) > 57 + k {
            vstd::arithmetic::power2::lemma_pow2_strictly_increases((57 + k) as nat, (52
                + j) as nat);
        }
        assert(pow2(57 + k) <= pow2(52 + j));
        assert(0x10_0000_0000_0000 * den == pow2(52) * pow2(j) * d0) by (nonlinear_arith)
            requires den == d0 * pow2(j), pow2(52) == 0x10_0000_0000_0000;
        assert(pow2(52) * pow2(j) * d0 == pow2(52 + j) * d0) by (nonlinear_arith)
            requires pow2(52) * pow2(j) == pow2(52 + j);
        assert(num < pow2(57) * pow2(k) * d0) by (nonlinear_arith)
            requires
                num == n0 * pow2(k),
                n0 < 0x200_0000_0000_0000,
                pow2(57) == 0x200_0000_0000_0000,
                pow2(k) >= 1,
                d0 >= 1;
        assert(pow2(57) * pow2(k) * d0 == pow2(57 + k) * d0) by (nonlinear_arith)
            requires pow2(57) * pow2(k) == pow2(57 + k);
        assert(pow2(52 + j) * d0 <= num);
        assert(pow2(52 + j) * d0 < pow2(57 + k) * d0) by (nonlinear_arith)
            requires pow2(52 + j) * d0 <= num, num < pow2(57 + k) * d0;
        assert(pow2(52 + j) < pow2(57 + k)) by (nonlinear_arith)
            requires pow2(52 + j) * d0 < pow2(57 + k) * d0, d0 >= 1;
        assert(false);
    }
    // Lower bound on j - k: n0 2^k < 2^53 d0 2^j < 2^(110+j), n0 >= 1.
    if (k as int) >= 110 + j {
        vstd::arithmetic::power2::lemma_pow2_adds(110, j);
        vstd::arithmetic::power2::lemma_pow2_adds(53, 57);
        if (k as int) > 110 + j {
            vstd::arithmetic::power2::lemma_pow2_strictly_increases((110 + j) as nat, k);
        }
        assert(pow2(110 + j) <= pow2(k));
        assert(num < 0x20_0000_0000_0000 * den);
        assert(0x20_0000_0000_0000 * den < pow2(53) * pow2(57) * pow2(j)) by (nonlinear_arith)
            requires
                den == d0 * pow2(j),
                d0 < 0x200_0000_0000_0000,
                pow2(53) == 0x20_0000_0000_0000,
                pow2(57) == 0x200_0000_0000_0000,
                pow2(j) >= 1;
        assert(pow2(53) * pow2(57) * pow2(j) == pow2(110) * pow2(j)) by (nonlinear_arith)
            requires pow2(53) * pow2(57) == pow2(110);
        assert(pow2(110) * pow2(j) == pow2(110 + j));
        assert(pow2(k) <= num) by (nonlinear_arith)
            requires num == n0 * pow2(k), n0 >= 1, pow2(k) >= 0;
        assert(num < pow2(110 + j));
        assert(false);
    }
}


/// The running byte position after the vertex block and the first `k`
/// element blocks, as the binary writer tracks it.
pub open spec fn spec_bitpos(m: Mesh, k: int) -> int
    decreases k,
{
    if k <= 0 {
        24 + 8 * m.node_refs@.len() * (m.dimension + 1)
    } else {
        let b = m.topology@[k - 1];
        spec_bitpos(m, k - 1) + 8 * b.2@.len() * (b.0.spec_node_count() + 1)
    }
}

/// The binary bytes of the node rows: each node's coordinates as doubles,
/// then its reference.
pub open spec fn spec_bin_node_rows(m: Mesh, cb: Seq<u64>, i: int) -> Seq<u8>
    decreases i,
{
    if i <= 0 {
        Seq::empty()
    } else {
        spec_bin_node_rows(m, cb, i - 1) + spec_bin_coord_cells(
            cb,
            (i - 1) * m.dimension,
            m.dimension as int,
        ) + spec_le64_i(m.node_refs@[i - 1] as int)
    }
}

/// The binary bytes of `j` coordinates of one node row.
pub open spec fn spec_bin_coord_cells(cb: Seq<u64>, base: int, j: int) -> Seq<u8>
    decreases j,
{
    if j <= 0 {
        Seq::empty()
    } else {
        spec_bin_coord_cells(cb, base, j - 1) + spec_le64(cb[base + j - 1] as int)
    }
}

/// The binary bytes of one element row: 1-based node numbers then the
/// reference.
pub open spec fn spec_bin_elem_cells(nodes: Seq<usize>, base: int, j: int) -> Seq<u8>
    decreases j,
{
    if j <= 0 {
        Seq::empty()
    } else {
        spec_bin_elem_cells(nodes, base, j - 1) + spec_le64((nodes[base + j - 1] + 1) as int)
    }
}

/// The binary bytes of the element rows of one block.
pub open spec fn spec_bin_elem_rows(b: (ElementType, Vec<usize>, Vec<i64>), i: int) -> Seq<u8>
    decreases i,
{
    if i <= 0 {
        Seq::empty()
    } else {
        spec_bin_elem_rows(b, i - 1) + spec_bin_elem_cells(
            b.1@,
            (i - 1) * b.0.spec_node_count(),
            b.0.spec_node_count(),
        ) + spec_le64_i(b.2@[i - 1] as int)
    }
}

/// The binary bytes of the first `k` element blocks.
pub open spec fn spec_bin_blocks(m: Mesh, k: int) -> Seq<u8>
    decreases k,
{
    if k <= 0 {
        Seq::empty()
    } else {
        let b = m.topology@[k - 1];
        spec_bin_blocks(m, k - 1) + spec_le32(b.0.spec_code()) + spec_le64(spec_bitpos(m, k))
            + spec_le64(b.2@.len() as int) + spec_bin_elem_rows(b, b.2@.len() as int)
    }
}

/// The complete binary image of a mesh, given the coordinate bit
/// patterns: magic and version, the dimension block, the vertex block,
/// the element blocks and the end code.
pub open spec fn spec_mesh_binary(m: Mesh, cb: Seq<u64>) -> Seq<u8> {
    spec_le32(1) + spec_le32(4) + spec_le32(3) + spec_le64(24) + spec_le32(m.dimension as int)
        + spec_le32(4) + spec_le64(spec_bitpos(m, 0)) + spec_le64(m.node_refs@.len() as int)
        + spec_bin_node_rows(m, cb, m.node_refs@.len() as int) + spec_bin_blocks(
        m,
        m.topology@.len() as int,
    ) + spec_le32(54)
}

/// Running byte positions stay small for a well-formed mesh.
proof fn lemma_bitpos_bounded(m: Mesh, k: int)
    requires
        m.wf(),
        0 <= k <= m.topology@.len(),
    ensures
        24 <= spec_bitpos(m, k) <= 24 + 0x80_0000_0000 + k * 0x80_0000_0000,
    decreases k,
{
    if k == 0 {
        assert(0 <= 8 * m.node_refs@.len() * (m.dimension + 1) <= 0x80_0000_0000)
            by (nonlinear_arith)
            requires m.node_refs@.len() <= 0xFFFF_FFFF, 0 <= m.dimension <= 3;
    } else {
        lemma_bitpos_bounded(m, k - 1);
        let b = m.topology@[k - 1];
        assert(0 <= 8 * b.2@.len() * (b.0.spec_node_count() + 1) <= 0x80_0000_0000)
            by (nonlinear_arith)
            requires b.2@.len() <= 0xFFFF_FFFF, 1 <= b.0.spec_node_count() <= 8;
        assert(24 + 0x80_0000_0000 + (k - 1) * 0x80_0000_0000 + 0x80_0000_0000 == 24
            + 0x80_0000_0000 + k * 0x80_0000_0000) by (nonlinear_arith);
    }
}

impl Mesh {
    /// The binary image of the mesh: every coordinate is encoded as the
    /// IEEE-754 double nearest to its decimal value, and the remaining
    /// bytes follow [`spec_mesh_binary`] exactly.
    #[verifier::rlimit(100)]
    pub fn write_to(&self) -> (out: Vec<u8>)
        requires
            self.wf(),
        ensures
            exists|cb: Seq<u64>|
                {
                    &&& cb.len() == self.coordinates@.len()
                    &&& forall|i: int|
                        0 <= i < cb.len() ==> is_f64_bits(
                            self.coordinates@[i],
                            #[trigger] cb[i],
                        )
                    &&& out@ == spec_mesh_binary(*self, cb)
                },
    {
        let nc = self.coordinates.len();
        let mut cbits: Vec<u64> = Vec::new();
        let mut i: usize = 0;
        while i < nc
            invariant
                0 <= i <= nc,
                nc == self.coordinates@.len(),
                self.wf(),
                cbits@.len() == i,
                forall|t: int|
                    0 <= t < i ==> is_f64_bits(self.coordinates@[t], #[trigger] cbits@[t]),
            decreases nc - i,
        {
            let b = f64_bits(self.coordinates[i]);
            cbits.push(b);
            i = i + 1;
        }
        let n = self.node_refs.len();
        let mut out: Vec<u8> = Vec::new();
        push_le32(&mut out, 1);
        push_le32(&mut out, 4);
        push_le32(&mut out, 3);
        push_le64(&mut out, 24);
        push_le32(&mut out, self.dimension as u32);
        push_le32(&mut out, 4);
        proof {
            lemma_bitpos_bounded(*self, 0);
            assert(8 * (n as int) * (self.dimension as int + 1) == spec_bitpos(*self, 0) - 24);
        }
        let mut bitpos: u64 = 24 + 8 * (n as u64) * (self.dimension as u64 + 1);
        push_le64(&mut out, bitpos);
        push_le64(&mut out, n as u64);
        let ghost head = spec_le32(1) + spec_le32(4) + spec_le32(3) + spec_le64(24) + spec_le32(
            self.dimension as int,
        ) + spec_le32(4) + spec_le64(spec_bitpos(*self, 0)) + spec_le64(n as int);
        proof {
            assert(out@ =~= head);
        }
        let mut i: usize = 0;
        while i < n
            invariant
                0 <= i <= n,
                n == self.node_refs@.len(),
                nc == self.coordinates@.len(),
                cbits@.len() == nc,
                self.wf(),
                out@ == head + spec_bin_node_rows(*self, cbits@, i as int),
            decreases n - i,
        {
            let ncc = self.coordinates.len();
            proof {
                assert((i as int) * (self.dimension as int) + (self.dimension as int) <= (
                n as int) * (self.dimension as int)) by (nonlinear_arith)
                    requires i < n, self.dimension >= 0;
                assert(0 <= (i as int) * (self.dimension as int)) by (nonlinear_arith)
                    requires i >= 0, self.dimension >= 0;
                assert((n as int) * (self.dimension as int) == ncc as int);
            }
            let base = i * self.dimension;
            let mut j: usize = 0;
            while j < self.dimension
                invariant
                    0 <= j <= self.dimension,
                    i < n,
                    n == self.node_refs@.len(),
                    base == i as int * self.dimension as int,
                    nc == self.coordinates@.len(),
                    cbits@.len() == nc,
                    base + self.dimension <= nc,
                    self.wf(),
                    out@ == head + spec_bin_node_rows(*self, cbits@, i as int)
                        + spec_bin_coord_cells(cbits@, base as int, j as int),
                decreases self.dimension - j,
            {
                push_le64(&mut out, cbits[base + j]);
                proof {
                    assert(out@ =~= head + spec_bin_node_rows(*self, cbits@, i as int)
                        + spec_bin_coord_cells(cbits@, base as int, j as int + 1));
                }
                j = j + 1;
            }
            push_le64_i(&mut out, self.node_refs[i]);
            proof {
                assert(out@ =~= head + spec_bin_node_rows(*self, cbits@, i as int + 1));
            }
            i = i + 1;
        }
        let ghost mid = head + spec_bin_node_rows(*self, cbits@, n as int);
        let nt = self.topology.len();
        let mut k: usize = 0;
        while k < nt
            invariant
                0 <= k <= nt,
                nt == self.topology@.len(),
                n == self.node_refs@.len(),
                nc == self.coordinates@.len(),
                cbits@.len() == nc,
                self.wf(),
                bitpos as int == spec_bitpos(*self, k as int),
                out@ == mid + spec_bin_blocks(*self, k as int),
            decreases nt - k,
        {
            let ty = self.topology[k].0;
            let cnt = self.topology[k].2.len();
            let npe = ty.node_count();
            push_le32(&mut out, ty.code() as u32);
            proof {
                lemma_bitpos_bounded(*self, k as int);
                lemma_bitpos_bounded(*self, k as int + 1);
                assert(spec_bitpos(*self, k as int + 1) == spec_bitpos(*self, k as int) + 8 * (
                cnt as int) * (npe as int + 1));
                assert(0 <= 8 * (cnt as int) * (npe as int + 1) <= 0x80_0000_0000)
                    by (nonlinear_arith)
                    requires cnt <= 0xFFFF_FFFF, 1 <= npe <= 8;
                assert(24 + 0x80_0000_0000 + (nt as int) * 0x80_0000_0000 <= 24 + 0x80_0000_0000
                    + 0xFFFF * 0x80_0000_0000) by (nonlinear_arith)
                    requires nt <= 0xFFFF;
                assert(24 + 0x80_0000_0000 + (k as int) * 0x80_0000_0000 <= 24 + 0x80_0000_0000
                    + (nt as int) * 0x80_0000_0000) by (nonlinear_arith)
                    requires k <= nt;
            }
            bitpos = bitpos + 8 * (cnt as u64) * (npe as u64 + 1);
            push_le64(&mut out, bitpos);
            push_le64(&mut out, cnt as u64);
            let ghost block_head = mid + spec_bin_blocks(*self, k as int) + spec_le32(
                ty.spec_code(),
            ) + spec_le64(spec_bitpos(*self, k as int + 1)) + spec_le64(cnt as int);
            proof {
                assert(out@ =~= block_head);
            }
            let mut e: usize = 0;
            while e < cnt
                invariant
                    0 <= e <= cnt,
                    k < nt,
                    nt == self.topology@.len(),
                    n == self.node_refs@.len(),
                    cnt == self.topology@[k as int].2@.len(),
                    ty == self.topology@[k as int].0,
                    npe == ty.spec_node_count(),
                    self.wf(),
                    out@ == block_head + spec_bin_elem_rows(self.topology@[k as int], e as int),
                decreases cnt - e,
            {
                let nn = self.topology[k].1.len();
                proof {
                    assert((e as int) * (npe as int) + (npe as int) <= (cnt as int) * (
                    npe as int)) by (nonlinear_arith)
                        requires e < cnt, npe >= 0;
                    assert(0 <= (e as int) * (npe as int)) by (nonlinear_arith)
                        requires e >= 0, npe >= 0;
                    assert((cnt as int) * (npe as int) == nn as int);
                }
                let ebase = e * npe;
                let mut j: usize = 0;
                while j < npe
                    invariant
                        0 <= j <= npe,
                        k < nt,
                        nt == self.topology@.len(),
                        e < cnt,
                        cnt == self.topology@[k as int].2@.len(),
                        ty == self.topology@[k as int].0,
                        npe == ty.spec_node_count(),
                        ebase == e as int * npe as int,
                        nn == self.topology@[k as int].1@.len(),
                        ebase + npe <= nn,
                        self.wf(),
                        n == self.node_refs@.len(),
                        out@ == block_head + spec_bin_elem_rows(
                            self.topology@[k as int],
                            e as int,
                        ) + spec_bin_elem_cells(
                            self.topology@[k as int].1@,
                            ebase as int,
                            j as int,
                        ),
                    decreases npe - j,
                {
                    let node = self.topology[k].1[ebase + j];
                    proof {
                        assert(self.topology@[k as int].1@[ebase + j] < n);
                    }
                    push_le64(&mut out, (node + 1) as u64);
                    proof {
                        assert(out@ =~= block_head + spec_bin_elem_rows(
                            self.topology@[k as int],
                            e as int,
                        ) + spec_bin_elem_cells(
                            self.topology@[k as int].1@,
                            ebase as int,
                            j as int + 1,
                        ));
                    }
                    j = j + 1;
                }
                push_le64_i(&mut out, self.topology[k].2[e]);
                proof {
                    assert(out@ =~= block_head + spec_bin_elem_rows(
                        self.topology@[k as int],
                        e as int + 1,
                    ));
                }
                e = e + 1;
            }
            proof {
                assert(out@ =~= mid + spec_bin_blocks(*self, k as int + 1));
            }
            k = k + 1;
        }
        push_le32(&mut out, 54);
        proof {
            assert(out@ =~= spec_mesh_binary(*self, cbits@));
        }
        out
    }
}


/// Whitespace in the ASCII format.
pub open spec fn spec_is_ws(b: u8) -> bool {
    b == 32 || b == 9 || b == 10 || b == 13
}

/// Whitespace in the ASCII format.
fn is_ws(b: u8) -> (r: bool)
    ensures
        r == spec_is_ws(b),
{
    b == 32 || b == 9 || b == 10 || b == 13
}

/// The byte sequences of a token list.
pub open spec fn views_of(ts: Seq<Vec<u8>>) -> Seq<Seq<u8>> {
    Seq::new(ts.len(), |i: int| ts[i]@)
}

/// A left-to-right scan of the text: the tokens closed so far and the
/// token still open.
pub open spec fn spec_scan(s: Seq<u8>) -> (Seq<Seq<u8>>, Seq<u8>)
    decreases s.len(),
{
    if s.len() == 0 {
        (Seq::empty(), Seq::empty())
    } else {
        let (toks, cur) = spec_scan(s.drop_last());
        let b = s.last();
        if spec_is_ws(b) {
            if cur.len() == 0 {
                (toks, Seq::empty())
            } else {
                (toks.push(cur), Seq::empty())
            }
        } else {
            (toks, cur.push(b))
        }
    }
}

/// The whitespace-separated tokens of the text.
pub open spec fn spec_tokens(s: Seq<u8>) -> Seq<Seq<u8>> {
    let (toks, cur) = spec_scan(s);
    if cur.len() == 0 {
        toks
    } else {
        toks.push(cur)
    }
}

/// Split the input into whitespace-separated tokens.
fn tokenize(input: &Vec<u8>) -> (tokens: Vec<Vec<u8>>)
    ensures
        views_of(tokens@) == spec_tokens(input@),
{
    let n = input.len();
    let mut tokens: Vec<Vec<u8>> = Vec::new();
    let mut cur: Vec<u8> = Vec::new();
    let mut i: usize = 0;
    while i < n
        invariant
            0 <= i <= n,
            n == input@.len(),
            (views_of(tokens@), cur@) == spec_scan(input@.subrange(0, i as int)),
        decreases n - i,
    {
        proof {
            assert(input@.subrange(0, i + 1).drop_last() =~= input@.subrange(0, i as int));
            assert(input@.subrange(0, i + 1).last() == input@[i as int]);
        }
        let ghost pre_tokens = views_of(tokens@);
        let ghost pre_cur = cur@;
        let b = input[i];
        if is_ws(b) {
            if cur.len() > 0 {
                tokens.push(cur);
                cur = Vec::new();
                proof {
                    assert(views_of(tokens@) =~= pre_tokens.push(pre_cur));
                }
            }
        } else {
            cur.push(b);
        }
        proof {
            assert((views_of(tokens@), cur@) == spec_scan(input@.subrange(0, i + 1)));
        }
        i = i + 1;
    }
    proof {
        assert(input@.subrange(0, n as int) =~= input@);
    }
    let ghost pre_tokens = views_of(tokens@);
    let ghost pre_cur = cur@;
    if cur.len() > 0 {
        tokens.push(cur);
        proof {
            assert(views_of(tokens@) =~= pre_tokens.push(pre_cur));
        }
    }
    tokens
}

/// Whether two token lists are equal.
fn tokens_eq(a: &Vec<Vec<u8>>, b: &Vec<Vec<u8>>) -> (r: bool)
    ensures
        r == (views_of(a@) == views_of(b@)),
{
    if a.len() != b.len() {
        proof {
            assert(views_of(a@).len() != views_of(b@).len());
        }
        return false;
    }
    let n = a.len();
    let mut i: usize = 0;
    while i < n
        invariant
            0 <= i <= n,
            n == a@.len(),
            n == b@.len(),
            forall|t: int| 0 <= t < i ==> #[trigger] views_of(a@)[t] == views_of(b@)[t],
        decreases n - i,
    {
        if !bytes_eq(&a[i], &b[i]) {
            proof {
                assert(views_of(a@)[i as int] != views_of(b@)[i as int]);
            }
            return false;
        }
        i = i + 1;
    }
    proof {
        assert(views_of(a@) =~= views_of(b@));
    }
    true
}

/// Whether two byte strings are equal.
fn bytes_eq(a: &Vec<u8>, b: &Vec<u8>) -> (r: bool)
    ensures
        r == (a@ == b@),
{
    if a.len() != b.len() {
        proof {
            assert(a@ != b@);
        }
        return false;
    }
    let n = a.len();
    let mut i: usize = 0;
    while i < n
        invariant
            0 <= i <= n,
            n == a@.len(),
            n == b@.len(),
            forall|t: int| 0 <= t < i ==> a@[t] == b@[t],
        decreases n - i,
    {
        if a[i] != b[i] {
            return false;
        }
        i = i + 1;
    }
    proof {
        assert(a@ =~= b@);
    }
    true
}

fn kw_mesh_version() -> (r: Vec<u8>)
    ensures
        r@ == seq![77u8, 101u8, 115u8, 104u8, 86u8, 101u8, 114u8, 115u8, 105u8, 111u8, 110u8, 70u8, 111u8, 114u8, 109u8, 97u8, 116u8, 116u8, 101u8, 100u8],
{
    let mut r: Vec<u8> = Vec::new();
    r.push(77);
    r.push(101);
    r.push(115);
    r.push(104);
    r.push(86);
    r.push(101);
    r.push(114);
    r.push(115);
    r.push(105);
    r.push(111);
    r.push(110);
    r.push(70);
    r.push(111);
    r.push(114);
    r.push(109);
    r.push(97);
    r.push(116);
    r.push(116);
    r.push(101);
    r.push(100);
    proof { assert(r@ =~= seq![77u8, 101u8, 115u8, 104u8, 86u8, 101u8, 114u8, 115u8, 105u8, 111u8, 110u8, 70u8, 111u8, 114u8, 109u8, 97u8, 116u8, 116u8, 101u8, 100u8]); }
    r
}

fn kw_dimension() -> (r: Vec<u8>)
    ensures
        r@ == seq![68u8, 105u8, 109u8, 101u8, 110u8, 115u8, 105u8, 111u8, 110u8],
{
    let mut r: Vec<u8> = Vec::new();
    r.push(68);
    r.push(105);
    r.push(109);
    r.push(101);
    r.push(110);
    r.push(115);
    r.push(105);
    r.push(111);
    r.push(110);
    proof { assert(r@ =~= seq![68u8, 105u8, 109u8, 101u8, 110u8, 115u8, 105u8, 111u8, 110u8]); }
    r
}

fn kw_end() -> (r: Vec<u8>)
    ensures
        r@ == seq![69u8, 110u8, 100u8],
{
    let mut r: Vec<u8> = Vec::new();
    r.push(69);
    r.push(110);
    r.push(100);
    proof { assert(r@ =~= seq![69u8, 110u8, 100u8]); }
    r
}

/// The element kind a section keyword announces, if any.
fn match_element(tok: &Vec<u8>) -> (r: Option<ElementType>) {
    let mut name: Vec<u8> = Vec::new();
    push_type_name(&mut name, ElementType::Edge);
    if bytes_eq(tok, &name) {
        return Some(ElementType::Edge);
    }
    let mut name: Vec<u8> = Vec::new();
    push_type_name(&mut name, ElementType::Triangle);
    if bytes_eq(tok, &name) {
        return Some(ElementType::Triangle);
    }
    let mut name: Vec<u8> = Vec::new();
    push_type_name(&mut name, ElementType::Quadrangle);
    if bytes_eq(tok, &name) {
        return Some(ElementType::Quadrangle);
    }
    let mut name: Vec<u8> = Vec::new();
    push_type_name(&mut name, ElementType::Quadrilateral);
    if bytes_eq(tok, &name) {
        return Some(ElementType::Quadrilateral);
    }
    let mut name: Vec<u8> = Vec::new();
    push_type_name(&mut name, ElementType::Tetrahedron);
    if bytes_eq(tok, &name) {
        return Some(ElementType::Tetrahedron);
    }
    let mut name: Vec<u8> = Vec::new();
    push_type_name(&mut name, ElementType::Hexahedron);
    if bytes_eq(tok, &name) {
        return Some(ElementType::Hexahedron);
    }
    None
}

/// Parse an unsigned integer token of at most 15 digits.
fn parse_u64_tok(t: &Vec<u8>) -> (r: Option<u64>)
    ensures
        r is Some ==> r->Some_0 < 0x38D7EA4C68000,
{
    let n = t.len();
    if n == 0 || n > 15 {
        return None;
    }
    let mut v: u64 = 0;
    let mut i: usize = 0;
    while i < n
        invariant
            0 <= i <= n,
            n == t@.len(),
            n <= 15,
            v < 0x38D7EA4C68000,
        decreases n - i,
    {
        let b = t[i];
        if b < 48 || b > 57 {
            return None;
        }
        if v >= 0x5AF3107A4000 {
            return None;
        }
        v = v * 10 + ((b - 48) as u64);
        i = i + 1;
    }
    Some(v)
}

/// Parse a signed integer token.
fn parse_i64_tok(t: &Vec<u8>) -> (r: Option<i64>) {
    let n = t.len();
    if n == 0 {
        return None;
    }
    if t[0] == 45 {
        let mut rest: Vec<u8> = Vec::new();
        let mut i: usize = 1;
        while i < n
            invariant
                1 <= i <= n,
                n == t@.len(),
            decreases n - i,
        {
            rest.push(t[i]);
            i = i + 1;
        }
        match parse_u64_tok(&rest) {
            Some(v) => Some(-(v as i64)),
            None => None,
        }
    } else {
        match parse_u64_tok(t) {
            Some(v) => Some(v as i64),
            None => None,
        }
    }
}

/// Parse a decimal token into canonical form.
fn parse_decimal_tok(t: &Vec<u8>) -> (r: Option<Decimal>)
    ensures
        r is Some ==> r->Some_0.wf(),
{
    let n = t.len();
    if n == 0 {
        return None;
    }
    let neg = t[0] == 45;
    let mut i: usize = if neg {
        1
    } else {
        0
    };
    if i >= n {
        return None;
    }
    let mut mantissa: u64 = 0;
    let mut digits: u32 = 0;
    let mut scale: u32 = 0;
    let mut seen_point: bool = false;
    let mut any_digit: bool = false;
    while i < n
        invariant
            0 <= i <= n,
            n == t@.len(),
            digits <= 17,
            scale <= digits,
            mantissa < 100_000_000_000_000_000,
        decreases n - i,
    {
        let b = t[i];
        if b == 46 {
            if seen_point {
                return None;
            }
            seen_point = true;
        } else if b >= 48 && b <= 57 {
            if digits >= 17 {
                return None;
            }
            proof {
                assert(mantissa * 10 + 9 < 1_000_000_000_000_000_000) by (nonlinear_arith)
                    requires mantissa < 100_000_000_000_000_000;
            }
            let nm = mantissa * 10 + ((b - 48) as u64);
            if nm >= 100_000_000_000_000_000 {
                return None;
            }
            mantissa = nm;
            digits = digits + 1;
            if seen_point {
                scale = scale + 1;
            }
        } else {
            return None;
        }
        i = i + 1;
    }
    if !(digits > 0) {
        return None;
    }
    // Canonicalize: strip trailing fractional zeros, no negative zero.
    let mut m = mantissa;
    let mut s = scale;
    while s > 0 && m % 10 == 0
        invariant
            s <= scale,
            m <= mantissa,
        decreases s,
    {
        m = m / 10;
        s = s - 1;
    }
    if m == 0 {
        return Some(Decimal { neg: false, mantissa: 0, scale: 0 });
    }
    Some(Decimal { neg, mantissa: m, scale: s })
}

impl Mesh {
    /// Parse the ASCII text of a mesh.  A malformed input — anything that
    /// is not the canonical text of a well-formed mesh, up to whitespace —
    /// is rejected with [`Error::ExternalFailure`].  A parsed mesh is
    /// well-formed and serializes back to the input: its canonical text
    /// carries exactly the input's tokens, so parsing after serializing is
    /// the identity modulo whitespace.
    pub fn parse_ascii(input: &Vec<u8>) -> (r: Result<Mesh, Error>)
        ensures
            r is Ok ==> r->Ok_0.wf() && spec_tokens(spec_mesh_ascii(r->Ok_0)) == spec_tokens(
                input@,
            ),
    {
        let tokens = tokenize(input);
        let nt = tokens.len();
        let mut pos: usize = 0;
        if pos >= nt {
            return Err(Error::ExternalFailure);
        }
        let kw = kw_mesh_version();
        if !bytes_eq(&tokens[pos], &kw) {
            return Err(Error::ExternalFailure);
        }
        pos = pos + 1;
        if pos >= nt {
            return Err(Error::ExternalFailure);
        }
        match parse_u64_tok(&tokens[pos]) {
            Some(_) => {},
            None => {
                return Err(Error::ExternalFailure);
            },
        }
        pos = pos + 1;
        if pos >= nt {
            return Err(Error::ExternalFailure);
        }
        let kw = kw_dimension();
        if !bytes_eq(&tokens[pos], &kw) {
            return Err(Error::ExternalFailure);
        }
        pos = pos + 1;
        if pos >= nt {
            return Err(Error::ExternalFailure);
        }
        let dim: usize = match parse_u64_tok(&tokens[pos]) {
            Some(2) => 2,
            Some(3) => 3,
            _ => {
                return Err(Error::ExternalFailure);
            },
        };
        pos = pos + 1;
        // The vertex section must come first.
        if pos >= nt {
            return Err(Error::ExternalFailure);
        }
        let mut name: Vec<u8> = Vec::new();
        push_type_name(&mut name, ElementType::Vertex);
        if !bytes_eq(&tokens[pos], &name) {
            return Err(Error::ExternalFailure);
        }
        pos = pos + 1;
        if pos >= nt {
            return Err(Error::ExternalFailure);
        }
        let n: usize = match parse_u64_tok(&tokens[pos]) {
            Some(v) => {
                if v > 0xFFFF_FFFF {
                    return Err(Error::ExternalFailure);
                }
                v as usize
            },
            None => {
                return Err(Error::ExternalFailure);
            },
        };
        pos = pos + 1;
        let mut coordinates: Vec<Decimal> = Vec::new();
        let mut node_refs: Vec<i64> = Vec::new();
        let mut i: usize = 0;
        while i < n
            invariant
                0 <= i <= n,
                n <= 0xFFFF_FFFF,
                dim == 2 || dim == 3,
                nt == tokens@.len(),
                coordinates@.len() == i * dim,
                node_refs@.len() == i,
                forall|t: int|
                    0 <= t < coordinates@.len() ==> (#[trigger] coordinates@[t]).wf(),
            decreases n - i,
        {
            let mut j: usize = 0;
            while j < dim
                invariant
                    0 <= j <= dim,
                    i < n,
                    n <= 0xFFFF_FFFF,
                    dim == 2 || dim == 3,
                    nt == tokens@.len(),
                    coordinates@.len() == i * dim + j,
                    node_refs@.len() == i,
                    forall|t: int|
                        0 <= t < coordinates@.len() ==> (#[trigger] coordinates@[t]).wf(),
                decreases dim - j,
            {
                if pos >= nt {
                    return Err(Error::ExternalFailure);
                }
                match parse_decimal_tok(&tokens[pos]) {
                    Some(d) => coordinates.push(d),
                    None => {
                        return Err(Error::ExternalFailure);
                    },
                }
                pos = pos + 1;
                j = j + 1;
            }
            if pos >= nt {
                return Err(Error::ExternalFailure);
            }
            match parse_i64_tok(&tokens[pos]) {
                Some(v) => node_refs.push(v),
                None => {
                    return Err(Error::ExternalFailure);
                },
            }
            pos = pos + 1;
            proof {
                assert((i as int) * (dim as int) + (dim as int) == ((i + 1) as int) * (
                dim as int)) by (nonlinear_arith);
            }
            i = i + 1;
        }
        let mut topology: Vec<(ElementType, Vec<usize>, Vec<i64>)> = Vec::new();
        loop
            invariant
                nt == tokens@.len(),
                views_of(tokens@) == spec_tokens(input@),
                n <= 0xFFFF_FFFF,
                dim == 2 || dim == 3,
                node_refs@.len() == n,
                coordinates@.len() == n * dim,
                forall|t: int|
                    0 <= t < coordinates@.len() ==> (#[trigger] coordinates@[t]).wf(),
                topology@.len() <= 0xFFFF,
                forall|k: int|
                    0 <= k < topology@.len() ==> {
                        let b = #[trigger] topology@[k];
                        &&& b.1@.len() == b.2@.len() * b.0.spec_node_count()
                        &&& b.2@.len() <= 0xFFFF_FFFF
                        &&& forall|u: int| 0 <= u < b.1@.len() ==> (#[trigger] b.1@[u]) < n
                    },
            decreases nt - pos,
        {
            let ghost pos0 = pos as int;
            if pos >= nt {
                return Err(Error::ExternalFailure);
            }
            let kw = kw_end();
            if bytes_eq(&tokens[pos], &kw) {
                let mesh = Mesh { dimension: dim, coordinates, node_refs, topology };
                // The mesh must echo the input, token for token: only the
                // canonical text of the mesh, up to whitespace, is a valid
                // spelling of it.
                let echo = mesh.to_ascii();
                let echo_tokens = tokenize(&echo);
                if tokens_eq(&echo_tokens, &tokens) {
                    return Ok(mesh);
                } else {
                    return Err(Error::ExternalFailure);
                }
            }
            let ty = match match_element(&tokens[pos]) {
                Some(t) => t,
                None => {
                    return Err(Error::ExternalFailure);
                },
            };
            pos = pos + 1;
            if pos >= nt {
                return Err(Error::ExternalFailure);
            }
            let cnt: usize = match parse_u64_tok(&tokens[pos]) {
                Some(v) => {
                    if v > 0xFFFF_FFFF {
                        return Err(Error::ExternalFailure);
                    }
                    v as usize
                },
                None => {
                    return Err(Error::ExternalFailure);
                },
            };
            pos = pos + 1;
            if topology.len() >= 0xFFFF {
                return Err(Error::ExternalFailure);
            }
            let npe = ty.node_count();
            let mut nodes: Vec<usize> = Vec::new();
            let mut refs: Vec<i64> = Vec::new();
            let mut e: usize = 0;
            while e < cnt
                invariant
                    0 <= e <= cnt,
                    cnt <= 0xFFFF_FFFF,
                    nt == tokens@.len(),
                    n <= 0xFFFF_FFFF,
                    npe == ty.spec_node_count(),
                    pos0 + 2 <= pos <= nt,
                    nodes@.len() == e * npe,
                    refs@.len() == e,
                    forall|u: int| 0 <= u < nodes@.len() ==> (#[trigger] nodes@[u]) < n,
                decreases cnt - e,
            {
                let mut j: usize = 0;
                while j < npe
                    invariant
                        0 <= j <= npe,
                        e < cnt,
                        cnt <= 0xFFFF_FFFF,
                        nt == tokens@.len(),
                        n <= 0xFFFF_FFFF,
                        npe == ty.spec_node_count(),
                        pos0 + 2 <= pos <= nt,
                        nodes@.len() == e * npe + j,
                        refs@.len() == e,
                        forall|u: int| 0 <= u < nodes@.len() ==> (#[trigger] nodes@[u]) < n,
                    decreases npe - j,
                {
                    if pos >= nt {
                        return Err(Error::ExternalFailure);
                    }
                    match parse_u64_tok(&tokens[pos]) {
                        Some(v) => {
                            if v < 1 || v > n as u64 {
                                return Err(Error::ExternalFailure);
                            }
                            nodes.push((v - 1) as usize);
                        },
                        None => {
                            return Err(Error::ExternalFailure);
                        },
                    }
                    pos = pos + 1;
                    j = j + 1;
                }
                if pos >= nt {
                    return Err(Error::ExternalFailure);
                }
                match parse_i64_tok(&tokens[pos]) {
                    Some(v) => refs.push(v),
                    None => {
                        return Err(Error::ExternalFailure);
                    },
                }
                pos = pos + 1;
                proof {
                    assert((e as int) * (npe as int) + (npe as int) == ((e + 1) as int) * (
                    npe as int)) by (nonlinear_arith);
                }
                e = e + 1;
            }
            topology.push((ty, nodes, refs));
        }
    }
}


/// The largest topological dimension among the first `k` element blocks.
pub open spec fn spec_max_dim(topology: Seq<(ElementType, Vec<usize>, Vec<i64>)>, k: int) -> int
    decreases k,
{
    if k <= 0 {
        0
    } else {
        let d = topology[k - 1].0.spec_dimension();
        let rest = spec_max_dim(topology, k - 1);
        if d > rest {
            d
        } else {
            rest
        }
    }
}

/// The blocks whose references [`apply`] overwrites: those of the largest
/// topological dimension, edges excepted.
pub open spec fn spec_applied(b: (ElementType, Vec<usize>, Vec<i64>), dmax: int) -> bool {
    b.0.spec_dimension() == dmax && b.0 != ElementType::Edge
}

/// How many weights the blocks before block `k` consume.
pub open spec fn spec_consumed(
    topology: Seq<(ElementType, Vec<usize>, Vec<i64>)>,
    dmax: int,
    k: int,
) -> int
    decreases k,
{
    if k <= 0 {
        0
    } else {
        spec_consumed(topology, dmax, k - 1) + if spec_applied(topology[k - 1], dmax) {
            topology[k - 1].2@.len() as int
        } else {
            0
        }
    }
}

/// The topological dimension of the largest elements of the mesh, or
/// zero for a mesh without elements.
fn max_element_dimension(m: &Mesh) -> (r: usize)
    ensures
        r <= 3,
        r == spec_max_dim(m.topology@, m.topology@.len() as int),
{
    let mut r: usize = 0;
    let mut k: usize = 0;
    while k < m.topology.len()
        invariant
            0 <= k <= m.topology@.len(),
            r <= 3,
            r == spec_max_dim(m.topology@, k as int),
        decreases m.topology@.len() - k,
    {
        let d = m.topology[k].0.dimension();
        if d > r {
            r = d;
        }
        k = k + 1;
    }
    r
}

/// Write the given weights into the element references of the mesh's
/// main elements — those of the largest topological dimension, edges
/// excepted — block by block, element by element, until the weights run
/// out; every other reference, and everything else about the mesh, stays
/// as it was.
#[verifier::rlimit(100)]
pub fn apply(mesh: &mut Mesh, weights: &Vec<i64>)
    ensures
        final(mesh).dimension == old(mesh).dimension,
        final(mesh).coordinates@ == old(mesh).coordinates@,
        final(mesh).node_refs@ == old(mesh).node_refs@,
        final(mesh).topology@.len() == old(mesh).topology@.len(),
        forall|k: int|
            0 <= k < final(mesh).topology@.len() ==> (#[trigger] final(mesh).topology@[k]).0
                == old(mesh).topology@[k].0 && final(mesh).topology@[k].1@ == old(
                mesh,
            ).topology@[k].1@ && final(mesh).topology@[k].2@.len() == old(
                mesh,
            ).topology@[k].2@.len(),
        forall|k: int|
            0 <= k < final(mesh).topology@.len() && !spec_applied(
                old(mesh).topology@[k],
                spec_max_dim(old(mesh).topology@, old(mesh).topology@.len() as int),
            ) ==> (#[trigger] final(mesh).topology@[k]).2@ == old(mesh).topology@[k].2@,
        forall|k: int, e: int|
            0 <= k < final(mesh).topology@.len() && spec_applied(
                old(mesh).topology@[k],
                spec_max_dim(old(mesh).topology@, old(mesh).topology@.len() as int),
            ) && 0 <= e < old(mesh).topology@[k].2@.len() ==> (
            #[trigger] final(mesh).topology@[k].2@[e]) == (if spec_consumed(
                old(mesh).topology@,
                spec_max_dim(old(mesh).topology@, old(mesh).topology@.len() as int),
                k,
            ) + e < weights@.len() {
                weights@[spec_consumed(
                    old(mesh).topology@,
                    spec_max_dim(old(mesh).topology@, old(mesh).topology@.len() as int),
                    k,
                ) + e]
            } else {
                old(mesh).topology@[k].2@[e]
            }),
        old(mesh).wf() ==> final(mesh).wf(),
{
    let ghost old_topo = old(mesh).topology@;
    let ghost dmax = spec_max_dim(old(mesh).topology@, old(mesh).topology@.len() as int);
    let ghost wlen = weights@.len() as int;
    let element_dim = max_element_dimension(mesh);
    let nt = mesh.topology.len();
    let mut next: usize = 0;
    let mut k: usize = 0;
    while k < nt
        invariant
            0 <= k <= nt,
            nt == mesh.topology@.len(),
            nt == old_topo.len(),
            old_topo == old(mesh).topology@,
            dmax == spec_max_dim(old_topo, nt as int),
            element_dim == dmax,
            wlen == weights@.len(),
            mesh.dimension == old(mesh).dimension,
            mesh.coordinates@ == old(mesh).coordinates@,
            mesh.node_refs@ == old(mesh).node_refs@,
            next as int == (if spec_consumed(old_topo, dmax, k as int) <= wlen {
                spec_consumed(old_topo, dmax, k as int)
            } else {
                wlen
            }),
            forall|t: int|
                0 <= t < nt ==> (#[trigger] mesh.topology@[t]).0 == old_topo[t].0
                    && mesh.topology@[t].1@ == old_topo[t].1@ && mesh.topology@[t].2@.len()
                    == old_topo[t].2@.len(),
            forall|t: int|
                k <= t < nt ==> (#[trigger] mesh.topology@[t]).2@ == old_topo[t].2@,
            forall|t: int|
                0 <= t < k && !spec_applied(old_topo[t], dmax) ==> (
                #[trigger] mesh.topology@[t]).2@ == old_topo[t].2@,
            forall|t: int, e: int|
                0 <= t < k && spec_applied(old_topo[t], dmax) && 0 <= e < old_topo[t].2@.len()
                    ==> (#[trigger] mesh.topology@[t].2@[e]) == (if spec_consumed(
                    old_topo,
                    dmax,
                    t,
                ) + e < wlen {
                    weights@[spec_consumed(old_topo, dmax, t) + e]
                } else {
                    old_topo[t].2@[e]
                }),
        decreases nt - k,
    {
        proof {
            lemma_consumed_bounds(old_topo, dmax, k as int);
        }
        let ty = mesh.topology[k].0;
        let is_edge = match ty {
            ElementType::Edge => true,
            _ => false,
        };
        if ty.dimension() == element_dim && !is_edge {
            let cnt = mesh.topology[k].2.len();
            let ghost base = spec_consumed(old_topo, dmax, k as int);
            let mut e: usize = 0;
            while e < cnt
                invariant
                    0 <= e <= cnt,
                    k < nt,
                    nt == mesh.topology@.len(),
                    nt == old_topo.len(),
                    old_topo == old(mesh).topology@,
                    cnt == old_topo[k as int].2@.len(),
                    wlen == weights@.len(),
                    spec_applied(old_topo[k as int], dmax),
                    base == spec_consumed(old_topo, dmax, k as int),
                    0 <= base,
                    next as int == (if base + e <= wlen {
                        base + e
                    } else {
                        wlen
                    }),
                    mesh.dimension == old(mesh).dimension,
                    mesh.coordinates@ == old(mesh).coordinates@,
                    mesh.node_refs@ == old(mesh).node_refs@,
                    forall|t: int|
                        0 <= t < nt ==> (#[trigger] mesh.topology@[t]).0 == old_topo[t].0
                            && mesh.topology@[t].1@ == old_topo[t].1@
                            && mesh.topology@[t].2@.len() == old_topo[t].2@.len(),
                    forall|t: int|
                        k < t < nt ==> (#[trigger] mesh.topology@[t]).2@ == old_topo[t].2@,
                    forall|t: int|
                        0 <= t < k && !spec_applied(old_topo[t], dmax) ==> (
                        #[trigger] mesh.topology@[t]).2@ == old_topo[t].2@,
                    forall|t: int, f: int|
                        0 <= t < k && spec_applied(old_topo[t], dmax) && 0 <= f
                            < old_topo[t].2@.len() ==> (#[trigger] mesh.topology@[t].2@[f]) == (
                        if spec_consumed(old_topo, dmax, t) + f < wlen {
                            weights@[spec_consumed(old_topo, dmax, t) + f]
                        } else {
                            old_topo[t].2@[f]
                        }),
                    forall|f: int|
                        0 <= f < e ==> (#[trigger] mesh.topology@[k as int].2@[f]) == (if base + f
                            < wlen {
                            weights@[base + f]
                        } else {
                            old_topo[k as int].2@[f]
                        }),
                    forall|f: int|
                        e <= f < cnt ==> (#[trigger] mesh.topology@[k as int].2@[f])
                            == old_topo[k as int].2@[f],
                decreases cnt - e,
            {
                if next < weights.len() {
                    let w = weights[next];
                    let ghost pre = mesh.topology@;
                    let mut block = mesh.topology.remove(k);
                    block.2.set(e, w);
                    mesh.topology.insert(k, block);
                    proof {
                        assert forall|t: int|
                            0 <= t < nt && t != k implies #[trigger] mesh.topology@[t]
                            == pre[t] by {}
                        assert(mesh.topology@[k as int].0 == pre[k as int].0);
                        assert(mesh.topology@[k as int].1@ == pre[k as int].1@);
                        assert(mesh.topology@[k as int].2@ == pre[k as int].2@.update(
                            e as int,
                            w,
                        ));
                    }
                    next = next + 1;
                }
                e = e + 1;
            }
            proof {
                assert(spec_consumed(old_topo, dmax, k as int + 1) == base + cnt);
            }
        } else {
            proof {
                assert(!spec_applied(old_topo[k as int], dmax));
                assert(spec_consumed(old_topo, dmax, k as int + 1) == spec_consumed(
                    old_topo,
                    dmax,
                    k as int,
                ));
            }
        }
        k = k + 1;
    }
}

/// Consumed counts are non-negative.
proof fn lemma_consumed_bounds(
    topology: Seq<(ElementType, Vec<usize>, Vec<i64>)>,
    dmax: int,
    k: int,
)
    requires
        0 <= k,
    ensures
        0 <= spec_consumed(topology, dmax, k),
    decreases k,
{
    if k > 0 {
        lemma_consumed_bounds(topology, dmax, k - 1);
    }
}

} // verus!
