//! The parameters in a checkpoint, under the names that the network gives them.
//!
//! A checkpoint is a map keyed by field name. Its parameters go by other names there than in the
//! network:
//!
//! - `HexConv2d` has `kernel`/`bias` in a checkpoint but `weight`/`bias` in the network.
//! - `BatchNorm` has `gamma`/`beta` in a checkpoint but `weight`/`bias` in the network.
//! - `Linear` stores weights as `[in, out]` in a checkpoint and `[out, in]` in the network, so the
//!   weight is transposed on the way in.

use vstd::prelude::*;
use vstd::string::*;
use crate::nn::model::ModelConfig;
use crate::nn::train::codec::{lemma_ranges, number_gives_the_bytes_back, read_le};
use crate::nn::train::positions::f32_at;
use crate::text::{decimal, push_decimal};
use crate::util::F32;

verus! {

/// The numbers of a parameter, as bytes, and their shape.
#[derive(Debug)]
pub struct TensorData {
    pub bytes: Vec<u8>,
    pub shape: Vec<usize>,
}

#[derive(Debug)]
pub struct HexConvParams {
    pub kernel: TensorData,
    pub bias: TensorData,
}

#[derive(Debug)]
pub struct LayerParams {
    pub weight: TensorData,
    pub bias: TensorData,
}

#[derive(Debug)]
pub struct BatchNormParams {
    pub gamma: TensorData,
    pub beta: TensorData,
    pub running_mean: TensorData,
    pub running_var: TensorData,
}

#[derive(Debug)]
pub struct InputParams {
    pub conv: HexConvParams,
    pub norm: BatchNormParams,
}

#[derive(Debug)]
pub struct ResidualParams {
    pub conv0: HexConvParams,
    pub norm0: BatchNormParams,
    pub conv1: HexConvParams,
    pub norm1: BatchNormParams,
}

#[derive(Debug)]
pub struct PolicyParams {
    pub conv: LayerParams,
    pub norm: BatchNormParams,
    pub linear: LayerParams,
}

#[derive(Debug)]
pub struct ValueParams {
    pub conv: LayerParams,
    pub norm: BatchNormParams,
    pub linear0: LayerParams,
    pub linear1: LayerParams,
}

/// The parameters of a whole network.
#[derive(Debug)]
pub struct Checkpoint {
    pub input: InputParams,
    pub residual: Vec<ResidualParams>,
    pub policy: PolicyParams,
    pub value: ValueParams,
}

/// A parameter of the network.
#[derive(Debug)]
pub struct Param {
    pub path: String,
    pub shape: Vec<usize>,
    pub values: Vec<F32>,
}

/// Why a checkpoint could not be loaded.
#[derive(Copy, Clone, Debug, PartialEq, Eq, Structural)]
pub enum LoadError {
    /// This many bytes do not make whole numbers.
    ByteLength(usize),
    /// There are more or fewer numbers than the shape has room for, or a weight whose rows and
    /// columns are to be exchanged has no rows and columns.
    Shape,
}

/// A parameter under its new name.
pub ghost struct Named {
    pub path: Seq<char>,
    pub data: TensorData,
    /// Whether rows and columns are to be exchanged.
    pub transposed: bool,
}

/// A parameter under its new name.
pub open spec fn named(
    prefix: Seq<char>,
    name: Seq<char>,
    data: TensorData,
    transposed: bool,
) -> Named {
    Named { path: prefix + name, data, transposed }
}

pub open spec fn hex_conv_named(prefix: Seq<char>, p: HexConvParams) -> Seq<Named> {
    seq![
        named(prefix, ".weight"@, p.kernel, false),
        named(prefix, ".bias"@, p.bias, false),
    ]
}

pub open spec fn conv_named(prefix: Seq<char>, p: LayerParams) -> Seq<Named> {
    seq![
        named(prefix, ".weight"@, p.weight, false),
        named(prefix, ".bias"@, p.bias, false),
    ]
}

pub open spec fn linear_named(prefix: Seq<char>, p: LayerParams) -> Seq<Named> {
    seq![
        named(prefix, ".weight"@, p.weight, true),
        named(prefix, ".bias"@, p.bias, false),
    ]
}

pub open spec fn norm_named(prefix: Seq<char>, p: BatchNormParams) -> Seq<Named> {
    seq![
        named(prefix, ".weight"@, p.gamma, false),
        named(prefix, ".bias"@, p.beta, false),
        named(prefix, ".running_mean"@, p.running_mean, false),
        named(prefix, ".running_var"@, p.running_var, false),
    ]
}

/// The name of a part of block `i`.
pub open spec fn block_text(i: nat, part: Seq<char>) -> Seq<char> {
    "residual."@ + decimal(i) + part
}

pub open spec fn block_named(i: nat, p: ResidualParams) -> Seq<Named> {
    hex_conv_named(block_text(i, ".conv0"@), p.conv0) + norm_named(
        block_text(i, ".norm0"@),
        p.norm0,
    ) + hex_conv_named(block_text(i, ".conv1"@), p.conv1) + norm_named(
        block_text(i, ".norm1"@),
        p.norm1,
    )
}

pub open spec fn blocks_named(blocks: Seq<ResidualParams>, n: nat) -> Seq<Named>
    decreases n,
{
    if n == 0 {
        Seq::empty()
    } else {
        blocks_named(blocks, (n - 1) as nat) + block_named((n - 1) as nat, blocks[n - 1])
    }
}

/// All parameters of a checkpoint, under their new names.
pub open spec fn all_named(c: Checkpoint) -> Seq<Named> {
    hex_conv_named("input.conv"@, c.input.conv) + norm_named("input.norm"@, c.input.norm)
        + blocks_named(c.residual@, c.residual@.len()) + conv_named("policy.conv"@, c.policy.conv)
        + norm_named("policy.norm"@, c.policy.norm) + linear_named(
        "policy.linear"@,
        c.policy.linear,
    ) + conv_named("value.conv"@, c.value.conv) + norm_named("value.norm"@, c.value.norm)
        + linear_named("value.linear0"@, c.value.linear0) + linear_named(
        "value.linear1"@,
        c.value.linear1,
    )
}

/// The numbers that the bytes make.
pub open spec fn numbers_in(bytes: Seq<u8>) -> Seq<F32> {
    Seq::new(bytes.len() / 4, |i: int| f32_at(bytes, 4 * i))
}

/// How many numbers a shape has room for.
pub open spec fn volume(shape: Seq<usize>) -> nat
    decreases shape.len(),
{
    if shape.len() == 0 {
        1
    } else {
        volume(shape.drop_last()) * shape.last() as nat
    }
}

impl TensorData {
    /// Why the numbers cannot be read, if they cannot.
    pub open spec fn unreadable(self) -> Option<LoadError> {
        if self.bytes@.len() % 4 != 0 {
            Some(LoadError::ByteLength(self.bytes@.len() as usize))
        } else if volume(self.shape@) != self.bytes@.len() / 4 {
            Some(LoadError::Shape)
        } else {
            None
        }
    }
}

/// The numbers of a matrix with so many rows and columns, row by row, with rows and columns
/// exchanged.
pub open spec fn exchanged(values: Seq<F32>, rows: int, cols: int) -> Seq<F32> {
    Seq::new(values.len(), |k: int| values[(k % rows) * cols + k / rows])
}

impl Named {
    /// Why the parameter cannot be loaded, if it cannot.
    pub open spec fn error(self) -> Option<LoadError> {
        if self.data.unreadable() is Some {
            self.data.unreadable()
        } else if self.transposed && self.data.shape@.len() != 2 {
            Some(LoadError::Shape)
        } else {
            None
        }
    }

    /// The shape that the parameter has in the network.
    pub open spec fn shape(self) -> Seq<usize> {
        if self.transposed {
            seq![self.data.shape@[1], self.data.shape@[0]]
        } else {
            self.data.shape@
        }
    }

    /// The numbers in the order that they have in the network.
    pub open spec fn values(self) -> Seq<F32> {
        let stored = numbers_in(self.data.bytes@);
        if self.transposed {
            exchanged(stored, self.data.shape@[0] as int, self.data.shape@[1] as int)
        } else {
            stored
        }
    }
}

impl Param {
    /// Whether this is the named parameter.
    pub open spec fn stands_for(self, given: Named) -> bool {
        &&& self.path@ == given.path
        &&& self.shape@ == given.shape()
        &&& self.values@ == given.values()
    }
}

/// Whether the parameter can be loaded.
pub open spec fn loadable(given: Named) -> bool {
    given.error() is None
}

/// Whether `out` is the outcome of loading the named parameters: those, unless one of them cannot
/// be loaded; then what is wrong with the first such.
pub open spec fn loaded(given: Seq<Named>, out: Result<Vec<Param>, LoadError>) -> bool {
    match out {
        Ok(params) => {
            &&& params@.len() == given.len()
            &&& forall|i: int| 0 <= i < given.len() ==> loadable(#[trigger] given[i])
            &&& forall|i: int|
                0 <= i < given.len() ==> (#[trigger] params@[i]).stands_for(given[i])
        },
        Err(e) => exists|i: int|
            {
                &&& 0 <= i < given.len()
                &&& (#[trigger] given[i]).error() == Some(e)
                &&& forall|j: int| 0 <= j < i ==> loadable(#[trigger] given[j])
            },
    }
}

/// The weight of a linear layer, stored as `[in, out]`, becomes one of `[out, in]`: the number in
/// row `o` and column `i` is the one that was stored in row `i` and column `o`.
pub proof fn a_linear_weight_is_exchanged(weight: Named, i: int, o: int)
    requires
        weight.transposed,
        weight.error() is None,
        0 <= i < weight.data.shape@[0],
        0 <= o < weight.data.shape@[1],
    ensures
        weight.shape() == seq![weight.data.shape@[1], weight.data.shape@[0]],
        weight.values().len() == numbers_in(weight.data.bytes@).len(),
        weight.values()[o * weight.data.shape@[0] + i] == numbers_in(weight.data.bytes@)[i
            * weight.data.shape@[1] + o],
{
    let shape = weight.data.shape@;
    let (rows, cols) = (shape[0] as int, shape[1] as int);
    lemma_matrix(shape);
    let k = o * rows + i;
    assert(0 <= k < rows * cols) by (nonlinear_arith)
        requires
            0 <= i < rows,
            0 <= o < cols,
            k == o * rows + i,
    ;
    assert(k % rows == i && k / rows == o) by {
        vstd::arithmetic::div_mod::lemma_fundamental_div_mod_converse(k, rows, o, i);
    }
}

/// A matrix has room for as many numbers as it has rows times columns.
proof fn lemma_matrix(shape: Seq<usize>)
    requires
        shape.len() == 2,
    ensures
        volume(shape) == shape[0] * shape[1],
{
    let row = shape.drop_last();
    assert(row.drop_last().len() == 0);
    assert(volume(row.drop_last()) == 1);
    assert(volume(row) == volume(row.drop_last()) * row.last() as nat);
    assert(row.last() == shape[0]);
    assert(volume(shape) == volume(row) * shape.last() as nat);
}

/// More dimensions leave no less room, unless one of them is zero.
proof fn lemma_volume_grows(shape: Seq<usize>, i: int)
    requires
        0 <= i <= shape.len(),
        forall|j: int| i <= j < shape.len() ==> #[trigger] shape[j] != 0,
    ensures
        volume(shape.take(i)) <= volume(shape),
    decreases shape.len() - i,
{
    if i < shape.len() {
        lemma_volume_grows(shape, i + 1);
        let more = shape.take(i + 1);
        assert(more.drop_last() =~= shape.take(i));
        assert(volume(shape.take(i)) <= volume(shape.take(i)) * shape[i]) by (nonlinear_arith)
            requires
                shape[i] >= 1,
                volume(shape.take(i)) >= 0,
        ;
    } else {
        assert(shape.take(i) =~= shape);
    }
}

/// A dimension of zero leaves no room.
proof fn lemma_no_volume(shape: Seq<usize>, i: int)
    requires
        0 <= i < shape.len(),
        shape[i] == 0,
    ensures
        volume(shape) == 0,
    decreases shape.len(),
{
    if i < shape.len() - 1 {
        lemma_no_volume(shape.drop_last(), i);
    }
    assert(volume(shape) == volume(shape.drop_last()) * shape.last() as nat);
    let (a, b) = (volume(shape.drop_last()), shape.last() as nat);
    assert(a == 0 || b == 0 ==> a * b == 0) by (nonlinear_arith);
}

/// Whether a shape has room for exactly `n` numbers.
fn has_volume(shape: &Vec<usize>, n: usize) -> (fits: bool)
    ensures
        fits == (volume(shape@) == n),
{
    let mut i: usize = 0;
    while i < shape.len()
        invariant
            i <= shape@.len(),
            forall|j: int| 0 <= j < i ==> #[trigger] shape@[j] != 0,
        decreases shape@.len() - i,
    {
        if shape[i] == 0 {
            proof {
                lemma_no_volume(shape@, i as int);
            }
            return n == 0;
        }
        i = i + 1;
    }
    let mut room: usize = 1;
    i = 0;
    while i < shape.len()
        invariant
            i <= shape@.len(),
            forall|j: int| 0 <= j < shape@.len() ==> #[trigger] shape@[j] != 0,
            room == volume(shape@.take(i as int)),
            room > 0,
        decreases shape@.len() - i,
    {
        proof {
            assert(shape@.take(i + 1).drop_last() =~= shape@.take(i as int));
            lemma_volume_grows(shape@, i + 1);
        }
        match room.checked_mul(shape[i]) {
            Some(more) => {
                proof {
                    let dim = shape@[i as int];
                    assert(more > 0) by (nonlinear_arith)
                        requires
                            more == room * dim,
                            room > 0,
                            dim > 0,
                    ;
                }
                room = more;
            },
            None => {
                return false;
            },
        }
        i = i + 1;
    }
    assert(shape@.take(i as int) =~= shape@);
    room == n
}

/// The numbers of a parameter.
pub fn tensor_from_burn(p: &TensorData) -> (values: Result<Vec<F32>, LoadError>)
    ensures
        match values {
            Ok(values) => p.unreadable() is None && values@ == numbers_in(p.bytes@),
            Err(e) => p.unreadable() == Some(e),
        },
{
    if p.bytes.len() % 4 != 0 {
        return Err(LoadError::ByteLength(p.bytes.len()));
    }
    let n: usize = p.bytes.len() / 4;
    if !has_volume(&p.shape, n) {
        return Err(LoadError::Shape);
    }
    let mut values: Vec<F32> = Vec::new();
    let mut i: usize = 0;
    while i < n
        invariant
            i <= n,
            n == p.bytes@.len() / 4,
            p.bytes@.len() <= usize::MAX,
            values@.len() == i,
            forall|j: int| 0 <= j < i ==> #[trigger] values@[j] == f32_at(p.bytes@, 4 * j),
        decreases n - i,
    {
        let x: u128 = read_le(p.bytes.as_slice(), 4 * i, 4);
        proof {
            number_gives_the_bytes_back(p.bytes@.subrange(4 * i, 4 * i + 4));
            lemma_ranges();
        }
        values.push(F32(x as u32));
        i = i + 1;
    }
    assert(values@ =~= numbers_in(p.bytes@));
    Ok(values)
}

/// A matrix with rows and columns exchanged.
fn exchange(values: &Vec<F32>, rows: usize, cols: usize) -> (out: Vec<F32>)
    requires
        values@.len() == rows * cols,
    ensures
        out@ == exchanged(values@, rows as int, cols as int),
{
    let mut out: Vec<F32> = Vec::new();
    while out.len() < values.len()
        invariant
            values@.len() == rows * cols,
            out@.len() <= values@.len(),
            forall|k: int|
                0 <= k < out@.len() ==> #[trigger] out@[k] == exchanged(
                    values@,
                    rows as int,
                    cols as int,
                )[k],
        decreases values@.len() - out@.len(),
    {
        let k: usize = out.len();
        proof {
            lemma_place(k as int, rows as int, cols as int);
        }
        out.push(values[(k % rows) * cols + k / rows]);
    }
    assert(out@ =~= exchanged(values@, rows as int, cols as int));
    out
}

/// Where a number of a matrix with rows and columns exchanged comes from.
proof fn lemma_place(k: int, rows: int, cols: int)
    requires
        0 <= k < rows * cols,
        0 <= rows,
        0 <= cols,
    ensures
        rows > 0,
        0 <= k / rows < cols,
        0 <= (k % rows) * cols,
        (k % rows) * cols + k / rows < rows * cols,
{
    assert(rows > 0) by (nonlinear_arith)
        requires
            0 <= k < rows * cols,
            0 <= rows,
    ;
    vstd::arithmetic::div_mod::lemma_fundamental_div_mod(k, rows);
    let (r, c) = (k % rows, k / rows);
    assert(0 <= r < rows && 0 <= c);
    assert(c < cols) by (nonlinear_arith)
        requires
            k == rows * c + r,
            0 <= r < rows,
            k < rows * cols,
    ;
    assert(0 <= r * cols && r * cols + c < rows * cols) by (nonlinear_arith)
        requires
            0 <= r < rows,
            0 <= c < cols,
    ;
}

/// Load one more parameter behind those that are there.
fn insert(
    params: &mut Vec<Param>,
    prefix: &str,
    name: &str,
    p: &TensorData,
    transposed: bool,
) -> (done: Result<(), LoadError>)
    ensures
        done matches Err(e) ==> named(prefix@, name@, *p, transposed).error() == Some(e),
        done is Ok ==> {
            &&& loadable(named(prefix@, name@, *p, transposed))
            &&& final(params)@.len() == old(params)@.len() + 1
            &&& final(params)@.drop_last() == old(params)@
            &&& final(params)@.last().stands_for(named(prefix@, name@, *p, transposed))
        },
{
    let stored = match tensor_from_burn(p) {
        Ok(values) => values,
        Err(e) => return Err(e),
    };
    let mut path = String::new();
    path.append(prefix);
    path.append(name);
    assert(path@ =~= prefix@ + name@);
    let mut shape: Vec<usize> = Vec::new();
    let values;
    if transposed {
        if p.shape.len() != 2 {
            return Err(LoadError::Shape);
        }
        shape.push(p.shape[1]);
        shape.push(p.shape[0]);
        proof {
            lemma_matrix(p.shape@);
        }
        values = exchange(&stored, p.shape[0], p.shape[1]);
    } else {
        shape = p.shape.clone();
        values = stored;
    }
    assert(shape@ =~= named(prefix@, name@, *p, transposed).shape());
    params.push(Param { path, shape, values });
    assert(params@.drop_last() =~= old(params)@);
    Ok(())
}

/// Whether the first parameters of `given` have been loaded.
spec fn loaded_so_far(given: Seq<Named>, params: Seq<Param>) -> bool {
    &&& params.len() <= given.len()
    &&& forall|i: int| 0 <= i < params.len() ==> loadable(#[trigger] given[i])
    &&& forall|i: int| 0 <= i < params.len() ==> (#[trigger] params[i]).stands_for(given[i])
}

proof fn lemma_loaded_push(given: Seq<Named>, before: Seq<Param>, after: Seq<Param>)
    requires
        loaded_so_far(given, before),
        after.len() == before.len() + 1,
        after.len() <= given.len(),
        after.drop_last() == before,
        loadable(given[before.len() as int]),
        after.last().stands_for(given[before.len() as int]),
    ensures
        loaded_so_far(given, after),
{
    assert forall|j: int| 0 <= j < after.len() implies (#[trigger] after[j]).stands_for(
        given[j],
    ) by {
        if j < before.len() {
            assert(after.drop_last()[j] == after[j]);
            assert(before[j].stands_for(given[j]));
        }
    }
}

/// Load a list of parameters.
fn insert_all(
    params: &mut Vec<Param>,
    prefix: &str,
    names: &Vec<(&'static str, &TensorData, bool)>,
    Ghost(given): Ghost<Seq<Named>>,
) -> (done: Result<(), LoadError>)
    requires
        loaded_so_far(given, old(params)@),
        old(params)@.len() + names@.len() <= given.len(),
        forall|i: int|
            0 <= i < names@.len() ==> named(
                prefix@,
                (#[trigger] names@[i]).0@,
                *names@[i].1,
                names@[i].2,
            ) == given[old(params)@.len() + i],
    ensures
        done is Ok ==> loaded_so_far(given, final(params)@) && final(params)@.len() == old(
            params,
        )@.len() + names@.len(),
        done matches Err(e) ==> loaded(given, Err(e)),
{
    let mut i: usize = 0;
    let ghost start = params@.len();
    while i < names.len()
        invariant
            i <= names@.len(),
            start == old(params)@.len(),
            start + names@.len() <= given.len(),
            forall|j: int|
                0 <= j < names@.len() ==> named(
                    prefix@,
                    (#[trigger] names@[j]).0@,
                    *names@[j].1,
                    names@[j].2,
                ) == given[start + j],
            params@.len() == start + i,
            loaded_so_far(given, params@),
        decreases names@.len() - i,
    {
        let ghost before = params@;
        let (name, data, transposed) = names[i];
        assert(named(prefix@, names@[i as int].0@, *names@[i as int].1, names@[i as int].2)
            == given[start + i]);
        match insert(params, prefix, name, data, transposed) {
            Ok(_) => {},
            Err(e) => {
                proof {
                    assert(given[start + i].data == *data);
                    assert(loaded(given, Err(e)));
                }
                return Err(e);
            },
        }
        proof {
            lemma_loaded_push(given, before, params@);
        }
        i = i + 1;
    }
    Ok(())
}

/// Whether `part` stands in `given` from `start` on.
pub(crate) open spec fn section(given: Seq<Named>, start: int, part: Seq<Named>) -> bool {
    &&& 0 <= start
    &&& start + part.len() <= given.len()
    &&& forall|i: int| 0 <= i < part.len() ==> #[trigger] part[i] == given[start + i]
}

/// Load a convolution of a hexagonal grid.
fn populate_hex_conv(
    params: &mut Vec<Param>,
    prefix: &str,
    p: &HexConvParams,
    Ghost(given): Ghost<Seq<Named>>,
) -> (done: Result<(), LoadError>)
    requires
        loaded_so_far(given, old(params)@),
        old(params)@.len() + 2 <= given.len(),
        section(given, old(params)@.len() as int, hex_conv_named(prefix@, *p)),
    ensures
        done is Ok ==> loaded_so_far(given, final(params)@) && final(params)@.len() == old(
            params,
        )@.len() + 2,
        done matches Err(e) ==> loaded(given, Err(e)),
{
    let mut names: Vec<(&'static str, &TensorData, bool)> = Vec::new();
    names.push((".weight", &p.kernel, false));
    names.push((".bias", &p.bias, false));
    proof {
        let part = hex_conv_named(prefix@, *p);
        assert forall|i: int| 0 <= i < names@.len() implies named(
            prefix@,
            (#[trigger] names@[i]).0@,
            *names@[i].1,
            names@[i].2,
        ) == given[params@.len() + i] by {
            assert(part[i] == given[params@.len() + i]);
        }
    }
    insert_all(params, prefix, &names, Ghost(given))
}

/// Load a convolution.
fn populate_conv2d(
    params: &mut Vec<Param>,
    prefix: &str,
    p: &LayerParams,
    Ghost(given): Ghost<Seq<Named>>,
) -> (done: Result<(), LoadError>)
    requires
        loaded_so_far(given, old(params)@),
        old(params)@.len() + 2 <= given.len(),
        section(given, old(params)@.len() as int, conv_named(prefix@, *p)),
    ensures
        done is Ok ==> loaded_so_far(given, final(params)@) && final(params)@.len() == old(
            params,
        )@.len() + 2,
        done matches Err(e) ==> loaded(given, Err(e)),
{
    let mut names: Vec<(&'static str, &TensorData, bool)> = Vec::new();
    names.push((".weight", &p.weight, false));
    names.push((".bias", &p.bias, false));
    proof {
        let part = conv_named(prefix@, *p);
        assert forall|i: int| 0 <= i < names@.len() implies named(
            prefix@,
            (#[trigger] names@[i]).0@,
            *names@[i].1,
            names@[i].2,
        ) == given[params@.len() + i] by {
            assert(part[i] == given[params@.len() + i]);
        }
    }
    insert_all(params, prefix, &names, Ghost(given))
}

/// Load a normalization.
fn populate_batch_norm(
    params: &mut Vec<Param>,
    prefix: &str,
    p: &BatchNormParams,
    Ghost(given): Ghost<Seq<Named>>,
) -> (done: Result<(), LoadError>)
    requires
        loaded_so_far(given, old(params)@),
        old(params)@.len() + 4 <= given.len(),
        section(given, old(params)@.len() as int, norm_named(prefix@, *p)),
    ensures
        done is Ok ==> loaded_so_far(given, final(params)@) && final(params)@.len() == old(
            params,
        )@.len() + 4,
        done matches Err(e) ==> loaded(given, Err(e)),
{
    let mut names: Vec<(&'static str, &TensorData, bool)> = Vec::new();
    names.push((".weight", &p.gamma, false));
    names.push((".bias", &p.beta, false));
    names.push((".running_mean", &p.running_mean, false));
    names.push((".running_var", &p.running_var, false));
    proof {
        let part = norm_named(prefix@, *p);
        assert forall|i: int| 0 <= i < names@.len() implies named(
            prefix@,
            (#[trigger] names@[i]).0@,
            *names@[i].1,
            names@[i].2,
        ) == given[params@.len() + i] by {
            assert(part[i] == given[params@.len() + i]);
        }
    }
    insert_all(params, prefix, &names, Ghost(given))
}

/// Load a linear layer. Its weights are stored as `[in, out]` and expected as `[out, in]`.
fn populate_linear(
    params: &mut Vec<Param>,
    prefix: &str,
    p: &LayerParams,
    Ghost(given): Ghost<Seq<Named>>,
) -> (done: Result<(), LoadError>)
    requires
        loaded_so_far(given, old(params)@),
        old(params)@.len() + 2 <= given.len(),
        section(given, old(params)@.len() as int, linear_named(prefix@, *p)),
    ensures
        done is Ok ==> loaded_so_far(given, final(params)@) && final(params)@.len() == old(
            params,
        )@.len() + 2,
        done matches Err(e) ==> loaded(given, Err(e)),
{
    let mut names: Vec<(&'static str, &TensorData, bool)> = Vec::new();
    names.push((".weight", &p.weight, true));
    names.push((".bias", &p.bias, false));
    proof {
        let part = linear_named(prefix@, *p);
        assert forall|i: int| 0 <= i < names@.len() implies named(
            prefix@,
            (#[trigger] names@[i]).0@,
            *names@[i].1,
            names@[i].2,
        ) == given[params@.len() + i] by {
            assert(part[i] == given[params@.len() + i]);
        }
    }
    insert_all(params, prefix, &names, Ghost(given))
}

/// The name of a part of a block.
fn block_prefix(i: usize, part: &str) -> (prefix: String)
    ensures
        prefix@ == block_text(i as nat, part@),
{
    let mut prefix = String::new();
    prefix.append("residual.");
    push_decimal(&mut prefix, i as u64);
    prefix.append(part);
    assert(prefix@ =~= block_text(i as nat, part@));
    prefix
}

/// Load a residual block.
fn populate_block(
    params: &mut Vec<Param>,
    i: usize,
    p: &ResidualParams,
    Ghost(given): Ghost<Seq<Named>>,
) -> (done: Result<(), LoadError>)
    requires
        loaded_so_far(given, old(params)@),
        section(given, old(params)@.len() as int, block_named(i as nat, *p)),
    ensures
        done is Ok ==> loaded_so_far(given, final(params)@) && final(params)@.len() == old(
            params,
        )@.len() + 12,
        done matches Err(e) ==> loaded(given, Err(e)),
{
    let conv0 = block_prefix(i, ".conv0");
    let norm0 = block_prefix(i, ".norm0");
    let conv1 = block_prefix(i, ".conv1");
    let norm1 = block_prefix(i, ".norm1");
    proof {
        let start = params@.len() as int;
        let a = hex_conv_named(conv0@, p.conv0);
        let b = norm_named(norm0@, p.norm0);
        let c = hex_conv_named(conv1@, p.conv1);
        let d = norm_named(norm1@, p.norm1);
        let all = block_named(i as nat, *p);
        assert(all =~= a + b + c + d);
        assert(section(given, start, a)) by {
            assert forall|k: int| 0 <= k < a.len() implies #[trigger] a[k] == given[start + k] by {
                assert(all[k] == given[start + k]);
            }
        }
        assert(section(given, start + 2, b)) by {
            assert forall|k: int| 0 <= k < b.len() implies #[trigger] b[k] == given[start + 2
                + k] by {
                assert(all[2 + k] == given[start + (2 + k)]);
            }
        }
        assert(section(given, start + 6, c)) by {
            assert forall|k: int| 0 <= k < c.len() implies #[trigger] c[k] == given[start + 6
                + k] by {
                assert(all[6 + k] == given[start + (6 + k)]);
            }
        }
        assert(section(given, start + 8, d)) by {
            assert forall|k: int| 0 <= k < d.len() implies #[trigger] d[k] == given[start + 8
                + k] by {
                assert(all[8 + k] == given[start + (8 + k)]);
            }
        }
    }
    match populate_hex_conv(params, conv0.as_str(), &p.conv0, Ghost(given)) {
        Ok(_) => {},
        Err(e) => return Err(e),
    }
    match populate_batch_norm(params, norm0.as_str(), &p.norm0, Ghost(given)) {
        Ok(_) => {},
        Err(e) => return Err(e),
    }
    match populate_hex_conv(params, conv1.as_str(), &p.conv1, Ghost(given)) {
        Ok(_) => {},
        Err(e) => return Err(e),
    }
    populate_batch_norm(params, norm1.as_str(), &p.norm1, Ghost(given))
}

pub(crate) proof fn lemma_blocks(blocks: Seq<ResidualParams>, n: nat, i: int)
    requires
        n <= blocks.len(),
    ensures
        blocks_named(blocks, n).len() == 12 * n,
        0 <= i < n ==> section(
            blocks_named(blocks, n),
            12 * i,
            block_named(i as nat, blocks[i]),
        ),
    decreases n,
{
    if n > 0 {
        lemma_blocks(blocks, (n - 1) as nat, i);
        let less = blocks_named(blocks, (n - 1) as nat);
        let all = blocks_named(blocks, n);
        if 0 <= i < n {
            let part = block_named(i as nat, blocks[i]);
            assert forall|k: int| 0 <= k < part.len() implies #[trigger] part[k] == all[12 * i
                + k] by {
                if i < n - 1 {
                    assert(part[k] == less[12 * i + k]);
                }
            }
        }
    }
}

/// A part of a part is a part.
pub(crate) proof fn lemma_section_within(given: Seq<Named>, a: int, outer: Seq<Named>, b: int, inner: Seq<
    Named,
>)
    requires
        section(given, a, outer),
        section(outer, b, inner),
    ensures
        section(given, a + b, inner),
{
    assert forall|k: int| 0 <= k < inner.len() implies #[trigger] inner[k] == given[a + b + k] by {
        assert(inner[k] == outer[b + k]);
        assert(outer[b + k] == given[a + (b + k)]);
    }
}

/// Where the parts of a checkpoint stand.
pub(crate) proof fn lemma_sections(c: Checkpoint)
    ensures
        ({
            let all = all_named(c);
            let n = 12 * c.residual@.len() as int;
            &&& all.len() == n + 24
            &&& section(all, 0, hex_conv_named("input.conv"@, c.input.conv))
            &&& section(all, 2, norm_named("input.norm"@, c.input.norm))
            &&& section(all, 6, blocks_named(c.residual@, c.residual@.len()))
            &&& section(all, 6 + n, conv_named("policy.conv"@, c.policy.conv))
            &&& section(all, 8 + n, norm_named("policy.norm"@, c.policy.norm))
            &&& section(all, 12 + n, linear_named("policy.linear"@, c.policy.linear))
            &&& section(all, 14 + n, conv_named("value.conv"@, c.value.conv))
            &&& section(all, 16 + n, norm_named("value.norm"@, c.value.norm))
            &&& section(all, 20 + n, linear_named("value.linear0"@, c.value.linear0))
            &&& section(all, 22 + n, linear_named("value.linear1"@, c.value.linear1))
        }),
{
    lemma_blocks(c.residual@, c.residual@.len(), 0);
}

impl Checkpoint {
    /// Whether the parameters that show the size of the network have the shapes they need.
    pub open spec fn shaped(self) -> bool {
        &&& self.input.conv.kernel.shape@.len() >= 1
        &&& self.value.linear0.weight.shape@.len() >= 2
    }

    /// The size of the network, inferred from the shapes of its parameters.
    pub fn config(&self) -> (config: ModelConfig)
        requires
            self.shaped(),
        ensures
            config == (ModelConfig {
                conv_layers: self.residual@.len() as usize,
                conv_channels: self.input.conv.kernel.shape@[0],
                value_hidden: self.value.linear0.weight.shape@[1],
            }),
    {
        ModelConfig {
            conv_layers: self.residual.len(),
            conv_channels: self.input.conv.kernel.shape[0],
            value_hidden: self.value.linear0.weight.shape[1],
        }
    }

    /// The parameters of the residual blocks, behind those of the input.
    fn populate_blocks(&self, params: &mut Vec<Param>) -> (done: Result<(), LoadError>)
        requires
            loaded_so_far(all_named(*self), old(params)@),
            old(params)@.len() == 6,
        ensures
            done is Ok ==> loaded_so_far(all_named(*self), final(params)@) && final(params)@.len()
                == 6 + 12 * self.residual@.len(),
            done matches Err(e) ==> loaded(all_named(*self), Err(e)),
    {
        let ghost given = all_named(*self);
        let ghost blocks = blocks_named(self.residual@, self.residual@.len());
        proof {
            lemma_sections(*self);
        }
        let mut i: usize = 0;
        while i < self.residual.len()
            invariant
                i <= self.residual@.len(),
                given == all_named(*self),
                blocks == blocks_named(self.residual@, self.residual@.len()),
                section(given, 6, blocks),
                loaded_so_far(given, params@),
                params@.len() == 6 + 12 * i,
            decreases self.residual@.len() - i,
        {
            proof {
                lemma_blocks(self.residual@, self.residual@.len(), i as int);
                lemma_section_within(
                    given,
                    6,
                    blocks,
                    12 * i,
                    block_named(i as nat, self.residual@[i as int]),
                );
            }
            match populate_block(params, i, &self.residual[i], Ghost(given)) {
                Ok(_) => {},
                Err(e) => return Err(e),
            }
            i = i + 1;
        }
        Ok(())
    }

    /// The parameters of the two heads, behind the others.
    fn populate_heads(&self, params: &mut Vec<Param>) -> (done: Result<(), LoadError>)
        requires
            loaded_so_far(all_named(*self), old(params)@),
            old(params)@.len() == 6 + 12 * self.residual@.len(),
        ensures
            done is Ok ==> loaded_so_far(all_named(*self), final(params)@) && final(params)@.len()
                == 24 + 12 * self.residual@.len(),
            done matches Err(e) ==> loaded(all_named(*self), Err(e)),
    {
        let ghost given = all_named(*self);
        proof {
            lemma_sections(*self);
        }
        match populate_conv2d(params, "policy.conv", &self.policy.conv, Ghost(given)) {
            Ok(_) => {},
            Err(e) => return Err(e),
        }
        match populate_batch_norm(params, "policy.norm", &self.policy.norm, Ghost(given)) {
            Ok(_) => {},
            Err(e) => return Err(e),
        }
        match populate_linear(params, "policy.linear", &self.policy.linear, Ghost(given)) {
            Ok(_) => {},
            Err(e) => return Err(e),
        }
        match populate_conv2d(params, "value.conv", &self.value.conv, Ghost(given)) {
            Ok(_) => {},
            Err(e) => return Err(e),
        }
        match populate_batch_norm(params, "value.norm", &self.value.norm, Ghost(given)) {
            Ok(_) => {},
            Err(e) => return Err(e),
        }
        match populate_linear(params, "value.linear0", &self.value.linear0, Ghost(given)) {
            Ok(_) => {},
            Err(e) => return Err(e),
        }
        populate_linear(params, "value.linear1", &self.value.linear1, Ghost(given))
    }

    /// All parameters, under the names that the network gives them.
    pub fn params(&self) -> (out: Result<Vec<Param>, LoadError>)
        ensures
            loaded(all_named(*self), out),
    {
        let ghost given = all_named(*self);
        proof {
            lemma_sections(*self);
        }
        let mut params: Vec<Param> = Vec::new();
        match populate_hex_conv(&mut params, "input.conv", &self.input.conv, Ghost(given)) {
            Ok(_) => {},
            Err(e) => return Err(e),
        }
        match populate_batch_norm(&mut params, "input.norm", &self.input.norm, Ghost(given)) {
            Ok(_) => {},
            Err(e) => return Err(e),
        }
        match self.populate_blocks(&mut params) {
            Ok(_) => {},
            Err(e) => return Err(e),
        }
        match self.populate_heads(&mut params) {
            Ok(_) => {},
            Err(e) => return Err(e),
        }
        Ok(params)
    }
}

} // verus!
