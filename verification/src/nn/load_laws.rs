//! What holds of every checkpoint that is loaded.

use vstd::prelude::*;
use vstd::string::*;
use crate::nn::burn_load::{
    all_named, block_named, block_text, blocks_named, conv_named, hex_conv_named, lemma_blocks,
    lemma_section_within, lemma_sections, linear_named, loadable, loaded, norm_named, numbers_in,
    section, BatchNormParams, Checkpoint, HexConvParams, LayerParams, Named, Param, ResidualParams,
    TensorData,
};
use crate::nn::model::ModelConfig;
use crate::text::{decimal, decimals_tell_numbers_apart};

verus! {

/// Whether there is a parameter under this path, and whichever is there has the stored shape and
/// the stored numbers in the stored order.
pub open spec fn holds(params: Seq<Param>, path: Seq<char>, stored: TensorData) -> bool {
    &&& exists|i: int| 0 <= i < params.len() && (#[trigger] params[i]).path@ == path
    &&& forall|i: int|
        0 <= i < params.len() && (#[trigger] params[i]).path@ == path ==> params[i].shape@
            == stored.shape@ && params[i].values@ == numbers_in(stored.bytes@)
}

/// Whether there is a parameter under this path, and whichever is there is the stored matrix with
/// rows and columns exchanged.
pub open spec fn holds_exchanged(params: Seq<Param>, path: Seq<char>, stored: TensorData) -> bool {
    &&& exists|i: int| 0 <= i < params.len() && (#[trigger] params[i]).path@ == path
    &&& forall|i: int|
        0 <= i < params.len() && (#[trigger] params[i]).path@ == path ==> is_exchanged(
            params[i],
            stored,
        )
}

/// Whether a parameter is the stored matrix with rows and columns exchanged.
pub open spec fn is_exchanged(param: Param, stored: TensorData) -> bool {
    &&& stored.shape@.len() == 2
    &&& param.shape@ == seq![stored.shape@[1], stored.shape@[0]]
    &&& param.values@.len() == numbers_in(stored.bytes@).len()
    &&& forall|k: int|
        0 <= k < param.values@.len() ==> #[trigger] param.values@[k] == numbers_in(stored.bytes@)[(k
            % stored.shape@[0] as int) * stored.shape@[1] + k / stored.shape@[0] as int]
}

/// Whether a convolution is loaded under this name: its kernel as the weight, its bias as the bias.
pub open spec fn has_hex_conv(params: Seq<Param>, name: Seq<char>, p: HexConvParams) -> bool {
    &&& holds(params, name + ".weight"@, p.kernel)
    &&& holds(params, name + ".bias"@, p.bias)
}

/// Whether a plain convolution is loaded under this name.
pub open spec fn has_conv(params: Seq<Param>, name: Seq<char>, p: LayerParams) -> bool {
    &&& holds(params, name + ".weight"@, p.weight)
    &&& holds(params, name + ".bias"@, p.bias)
}

/// Whether a linear layer is loaded under this name: its weight with rows and columns exchanged, its
/// bias as it is.
pub open spec fn has_linear(params: Seq<Param>, name: Seq<char>, p: LayerParams) -> bool {
    &&& holds_exchanged(params, name + ".weight"@, p.weight)
    &&& holds(params, name + ".bias"@, p.bias)
}

/// Whether a normalization is loaded under this name: its gamma as the weight, its beta as the bias,
/// its running mean and variance as what they are.
pub open spec fn has_norm(params: Seq<Param>, name: Seq<char>, p: BatchNormParams) -> bool {
    &&& holds(params, name + ".weight"@, p.gamma)
    &&& holds(params, name + ".bias"@, p.beta)
    &&& holds(params, name + ".running_mean"@, p.running_mean)
    &&& holds(params, name + ".running_var"@, p.running_var)
}

// ---------------------------------------------------------------------------
// Paths
// ---------------------------------------------------------------------------

/// The last part of the path of a convolution's or a linear layer's parameter.
spec fn layer_part(k: int) -> Seq<char> {
    if k == 0 {
        ".weight"@
    } else {
        ".bias"@
    }
}

/// The last part of the path of a normalization's parameter.
spec fn norm_part(k: int) -> Seq<char> {
    if k == 0 {
        ".weight"@
    } else if k == 1 {
        ".bias"@
    } else if k == 2 {
        ".running_mean"@
    } else {
        ".running_var"@
    }
}

/// The part of a block that its `r`-th parameter belongs to.
spec fn block_part(r: int) -> Seq<char> {
    if r < 2 {
        ".conv0"@
    } else if r < 6 {
        ".norm0"@
    } else if r < 8 {
        ".conv1"@
    } else {
        ".norm1"@
    }
}

/// The last part of the path of a block's `r`-th parameter.
spec fn block_tail(r: int) -> Seq<char> {
    if r < 2 {
        layer_part(r)
    } else if r < 6 {
        norm_part(r - 2)
    } else if r < 8 {
        layer_part(r - 6)
    } else {
        norm_part(r - 8)
    }
}

/// The layer that the `k`-th parameter of a network with `n` parameters in its blocks belongs to.
spec fn layer_name(k: int, n: int) -> Seq<char> {
    if k < 2 {
        "input.conv"@
    } else if k < 6 {
        "input.norm"@
    } else if k < 6 + n {
        block_text(((k - 6) / 12) as nat, block_part((k - 6) % 12))
    } else if k < 8 + n {
        "policy.conv"@
    } else if k < 12 + n {
        "policy.norm"@
    } else if k < 14 + n {
        "policy.linear"@
    } else if k < 16 + n {
        "value.conv"@
    } else if k < 20 + n {
        "value.norm"@
    } else if k < 22 + n {
        "value.linear0"@
    } else {
        "value.linear1"@
    }
}

/// The last part of the path of the `k`-th parameter.
spec fn tail_name(k: int, n: int) -> Seq<char> {
    if k < 2 {
        layer_part(k)
    } else if k < 6 {
        norm_part(k - 2)
    } else if k < 6 + n {
        block_tail((k - 6) % 12)
    } else if k < 8 + n {
        layer_part(k - 6 - n)
    } else if k < 12 + n {
        norm_part(k - 8 - n)
    } else if k < 14 + n {
        layer_part(k - 12 - n)
    } else if k < 16 + n {
        layer_part(k - 14 - n)
    } else if k < 20 + n {
        norm_part(k - 16 - n)
    } else if k < 22 + n {
        layer_part(k - 20 - n)
    } else {
        layer_part(k - 22 - n)
    }
}

/// Where the parameters of a checkpoint stand among all of them.
#[verifier::opaque]
spec fn laid_out(all: Seq<Named>, c: Checkpoint) -> bool {
    let n = 12 * c.residual@.len() as int;
    &&& all.len() == n + 24
    &&& section(all, 0, hex_conv_named("input.conv"@, c.input.conv))
    &&& section(all, 2, norm_named("input.norm"@, c.input.norm))
    &&& forall|i: int|
        0 <= i < c.residual@.len() ==> section(
            all,
            6 + 12 * i,
            #[trigger] block_named(i as nat, c.residual@[i]),
        )
    &&& section(all, 6 + n, conv_named("policy.conv"@, c.policy.conv))
    &&& section(all, 8 + n, norm_named("policy.norm"@, c.policy.norm))
    &&& section(all, 12 + n, linear_named("policy.linear"@, c.policy.linear))
    &&& section(all, 14 + n, conv_named("value.conv"@, c.value.conv))
    &&& section(all, 16 + n, norm_named("value.norm"@, c.value.norm))
    &&& section(all, 20 + n, linear_named("value.linear0"@, c.value.linear0))
    &&& section(all, 22 + n, linear_named("value.linear1"@, c.value.linear1))
}

proof fn lemma_laid_out(c: Checkpoint)
    ensures
        laid_out(all_named(c), c),
        all_named(c).len() == 12 * c.residual@.len() + 24,
{
    reveal(laid_out);
    let all = all_named(c);
    let blocks = blocks_named(c.residual@, c.residual@.len());
    lemma_sections(c);
    assert forall|i: int| 0 <= i < c.residual@.len() implies section(
        all,
        6 + 12 * i,
        #[trigger] block_named(i as nat, c.residual@[i]),
    ) by {
        lemma_blocks(c.residual@, c.residual@.len(), i);
        lemma_section_within(all, 6, blocks, 12 * i, block_named(i as nat, c.residual@[i]));
    }
}

/// What stands at a place of a section.
proof fn lemma_entry(all: Seq<Named>, start: int, part: Seq<Named>, j: int)
    requires
        section(all, start, part),
        0 <= j < part.len(),
    ensures
        all[start + j] == part[j],
        0 <= start + j < all.len(),
{
}

proof fn lemma_layer_paths(prefix: Seq<char>, h: HexConvParams, p: LayerParams, j: int)
    requires
        0 <= j < 2,
    ensures
        hex_conv_named(prefix, h).len() == 2,
        conv_named(prefix, p).len() == 2,
        linear_named(prefix, p).len() == 2,
        hex_conv_named(prefix, h)[j].path == prefix + layer_part(j),
        conv_named(prefix, p)[j].path == prefix + layer_part(j),
        linear_named(prefix, p)[j].path == prefix + layer_part(j),
{
}

proof fn lemma_norm_paths(prefix: Seq<char>, p: BatchNormParams, j: int)
    requires
        0 <= j < 4,
    ensures
        norm_named(prefix, p).len() == 4,
        norm_named(prefix, p)[j].path == prefix + norm_part(j),
{
}

/// The parts of a block stand one behind the other.
proof fn lemma_block_sections(i: nat, p: ResidualParams)
    ensures
        block_named(i, p).len() == 12,
        section(block_named(i, p), 0, hex_conv_named(block_text(i, ".conv0"@), p.conv0)),
        section(block_named(i, p), 2, norm_named(block_text(i, ".norm0"@), p.norm0)),
        section(block_named(i, p), 6, hex_conv_named(block_text(i, ".conv1"@), p.conv1)),
        section(block_named(i, p), 8, norm_named(block_text(i, ".norm1"@), p.norm1)),
{
}

proof fn lemma_block_path(i: nat, p: ResidualParams, r: int)
    requires
        0 <= r < 12,
    ensures
        block_named(i, p).len() == 12,
        block_named(i, p)[r].path == block_text(i, block_part(r)) + block_tail(r),
{
    lemma_block_sections(i, p);
    let all = block_named(i, p);
    let any = LayerParams { weight: p.conv0.kernel, bias: p.conv0.bias };
    if r < 2 {
        let name = block_text(i, ".conv0"@);
        lemma_layer_paths(name, p.conv0, any, r);
        lemma_entry(all, 0, hex_conv_named(name, p.conv0), r);
    } else if r < 6 {
        let name = block_text(i, ".norm0"@);
        lemma_norm_paths(name, p.norm0, r - 2);
        lemma_entry(all, 2, norm_named(name, p.norm0), r - 2);
    } else if r < 8 {
        let name = block_text(i, ".conv1"@);
        lemma_layer_paths(name, p.conv1, any, r - 6);
        lemma_entry(all, 6, hex_conv_named(name, p.conv1), r - 6);
    } else {
        let name = block_text(i, ".norm1"@);
        lemma_norm_paths(name, p.norm1, r - 8);
        lemma_entry(all, 8, norm_named(name, p.norm1), r - 8);
    }
}

/// Every path is made of the name of a layer and a last part.
proof fn lemma_path(all: Seq<Named>, c: Checkpoint, k: int)
    requires
        laid_out(all, c),
        0 <= k < 12 * c.residual@.len() + 24,
    ensures
        all[k].path == layer_name(k, 12 * c.residual@.len() as int) + tail_name(
            k,
            12 * c.residual@.len() as int,
        ),
{
    reveal(laid_out);
    let n = 12 * c.residual@.len() as int;
    if k < 2 {
        lemma_layer_paths("input.conv"@, c.input.conv, c.policy.conv, k);
        lemma_entry(all, 0, hex_conv_named("input.conv"@, c.input.conv), k);
    } else if k < 6 {
        lemma_norm_paths("input.norm"@, c.input.norm, k - 2);
        lemma_entry(all, 2, norm_named("input.norm"@, c.input.norm), k - 2);
    } else if k < 6 + n {
        let i = (k - 6) / 12;
        let r = (k - 6) % 12;
        let block = block_named(i as nat, c.residual@[i]);
        lemma_block_path(i as nat, c.residual@[i], r);
        lemma_entry(all, 6 + 12 * i, block, r);
        assert(k == 6 + 12 * i + r);
    } else if k < 8 + n {
        let j = k - 6 - n;
        lemma_layer_paths("policy.conv"@, c.input.conv, c.policy.conv, j);
        lemma_entry(all, 6 + n, conv_named("policy.conv"@, c.policy.conv), j);
    } else if k < 12 + n {
        let j = k - 8 - n;
        lemma_norm_paths("policy.norm"@, c.policy.norm, j);
        lemma_entry(all, 8 + n, norm_named("policy.norm"@, c.policy.norm), j);
    } else if k < 14 + n {
        let j = k - 12 - n;
        lemma_layer_paths("policy.linear"@, c.input.conv, c.policy.linear, j);
        lemma_entry(all, 12 + n, linear_named("policy.linear"@, c.policy.linear), j);
    } else if k < 16 + n {
        let j = k - 14 - n;
        lemma_layer_paths("value.conv"@, c.input.conv, c.value.conv, j);
        lemma_entry(all, 14 + n, conv_named("value.conv"@, c.value.conv), j);
    } else if k < 20 + n {
        let j = k - 16 - n;
        lemma_norm_paths("value.norm"@, c.value.norm, j);
        lemma_entry(all, 16 + n, norm_named("value.norm"@, c.value.norm), j);
    } else if k < 22 + n {
        let j = k - 20 - n;
        lemma_layer_paths("value.linear0"@, c.input.conv, c.value.linear0, j);
        lemma_entry(all, 20 + n, linear_named("value.linear0"@, c.value.linear0), j);
    } else {
        let j = k - 22 - n;
        lemma_layer_paths("value.linear1"@, c.input.conv, c.value.linear1, j);
        lemma_entry(all, 22 + n, linear_named("value.linear1"@, c.value.linear1), j);
    }
}

/// Whether a text begins with a dot and has no other.
spec fn dotted(s: Seq<char>) -> bool {
    &&& s.len() > 1
    &&& s[0] == '.'
    &&& forall|i: int| 1 <= i < s.len() ==> #[trigger] s[i] != '.'
}

/// Where the last dot is known, both sides of it are.
proof fn lemma_last_dot(a: Seq<char>, x: Seq<char>, b: Seq<char>, y: Seq<char>)
    requires
        a + x == b + y,
        dotted(x),
        dotted(y),
    ensures
        a == b,
        x == y,
{
    let whole = a + x;
    assert(whole.len() == a.len() + x.len());
    assert((b + y).len() == b.len() + y.len());
    assert(whole[a.len() as int] == '.');
    assert(whole[b.len() as int] == y[0]);
    if a.len() < b.len() {
        assert(x[b.len() - a.len()] == whole[b.len() as int]);
    } else if b.len() < a.len() {
        assert(y[a.len() - b.len()] == (b + y)[a.len() as int]);
    }
    assert(a =~= whole.take(a.len() as int));
    assert(b =~= (b + y).take(b.len() as int));
    assert(x =~= whole.skip(a.len() as int));
    assert(y =~= (b + y).skip(b.len() as int));
}

/// The last parts of paths.
proof fn lemma_tails()
    ensures
        forall|k: int| dotted(#[trigger] layer_part(k)),
        forall|k: int| dotted(#[trigger] norm_part(k)),
        forall|r: int| dotted(#[trigger] block_part(r)),
        forall|j: int, k: int|
            0 <= j < 2 && 0 <= k < 2 && #[trigger] layer_part(j) == #[trigger] layer_part(k)
                ==> j == k,
        forall|j: int, k: int|
            0 <= j < 4 && 0 <= k < 4 && #[trigger] norm_part(j) == #[trigger] norm_part(k) ==> j
                == k,
        ".conv0"@ != ".norm0"@,
        ".conv0"@ != ".conv1"@,
        ".conv0"@ != ".norm1"@,
        ".norm0"@ != ".conv1"@,
        ".norm0"@ != ".norm1"@,
        ".conv1"@ != ".norm1"@,
{
    reveal_strlit(".weight");
    reveal_strlit(".bias");
    reveal_strlit(".running_mean");
    reveal_strlit(".running_var");
    reveal_strlit(".conv0");
    reveal_strlit(".norm0");
    reveal_strlit(".conv1");
    reveal_strlit(".norm1");
    assert(".weight"@.len() != ".bias"@.len());
    assert(".running_mean"@.len() != ".running_var"@.len());
    assert(".conv0"@[1] != ".norm0"@[1]);
    assert(".conv0"@[5] != ".conv1"@[5]);
    assert(".conv0"@[1] != ".norm1"@[1]);
    assert(".norm0"@[1] != ".conv1"@[1]);
    assert(".norm0"@[5] != ".norm1"@[5]);
    assert(".conv1"@[1] != ".norm1"@[1]);
}

/// The first and the last letter of the name of a layer.
spec fn ends(s: Seq<char>) -> (char, char) {
    (s[0], s[s.len() - 1])
}

/// The names of the layers are told apart by their first and last letters.
proof fn lemma_layers()
    ensures
        ends("input.conv"@) == ('i', 'v'),
        ends("input.norm"@) == ('i', 'm'),
        ends("policy.conv"@) == ('p', 'v'),
        ends("policy.norm"@) == ('p', 'm'),
        ends("policy.linear"@) == ('p', 'r'),
        ends("value.conv"@) == ('v', 'v'),
        ends("value.norm"@) == ('v', 'm'),
        ends("value.linear0"@) == ('v', '0'),
        ends("value.linear1"@) == ('v', '1'),
        forall|i: nat, part: Seq<char>| (#[trigger] block_text(i, part))[0] == 'r',
{
    reveal_strlit("input.conv");
    reveal_strlit("input.norm");
    reveal_strlit("policy.conv");
    reveal_strlit("policy.norm");
    reveal_strlit("policy.linear");
    reveal_strlit("value.conv");
    reveal_strlit("value.norm");
    reveal_strlit("value.linear0");
    reveal_strlit("value.linear1");
    reveal_strlit("residual.");
}

/// The names of blocks tell them apart.
proof fn lemma_same_block(i: nat, j: nat, p: Seq<char>, q: Seq<char>)
    requires
        block_text(i, p) == block_text(j, q),
        dotted(p),
        dotted(q),
    ensures
        i == j,
        p == q,
{
    let head = "residual."@;
    lemma_last_dot(head + decimal(i), p, head + decimal(j), q);
    assert((head + decimal(i)).skip(head.len() as int) =~= decimal(i));
    assert((head + decimal(j)).skip(head.len() as int) =~= decimal(j));
    decimals_tell_numbers_apart(i, j);
}

/// No two parameters of a network have the same path.
pub proof fn paths_tell_parameters_apart(c: Checkpoint, j: int, k: int)
    requires
        0 <= j < all_named(c).len(),
        0 <= k < all_named(c).len(),
        all_named(c)[j].path == all_named(c)[k].path,
    ensures
        j == k,
{
    lemma_laid_out(c);
    lemma_paths_apart(all_named(c), c, j, k);
}

proof fn lemma_paths_apart(all: Seq<Named>, c: Checkpoint, j: int, k: int)
    requires
        laid_out(all, c),
        0 <= j < 12 * c.residual@.len() + 24,
        0 <= k < 12 * c.residual@.len() + 24,
        all[j].path == all[k].path,
    ensures
        j == k,
{
    let n = 12 * c.residual@.len() as int;
    lemma_path(all, c, j);
    lemma_path(all, c, k);
    lemma_tails();
    lemma_layers();
    lemma_last_dot(layer_name(j, n), tail_name(j, n), layer_name(k, n), tail_name(k, n));
    let in_block_j = 6 <= j < 6 + n;
    let in_block_k = 6 <= k < 6 + n;
    if in_block_j && in_block_k {
        let (a, r) = ((j - 6) / 12, (j - 6) % 12);
        let (b, t) = ((k - 6) / 12, (k - 6) % 12);
        lemma_same_block(a as nat, b as nat, block_part(r), block_part(t));
        assert(block_tail(r) == block_tail(t));
        lemma_block_places(r, t);
    } else if in_block_j || in_block_k {
        assert(layer_name(j, n)[0] != layer_name(k, n)[0]);
    } else {
        assert(ends(layer_name(j, n)) == ends(layer_name(k, n)));
    }
}

proof fn lemma_block_places(r: int, t: int)
    requires
        0 <= r < 12,
        0 <= t < 12,
        block_part(r) == block_part(t),
        block_tail(r) == block_tail(t),
    ensures
        r == t,
{
    lemma_tails();
}

// ---------------------------------------------------------------------------
// Laws
// ---------------------------------------------------------------------------

/// Whether everything that was to be loaded is found under its path, as it was to be loaded.
#[verifier::opaque]
spec fn found(params: Seq<Param>, all: Seq<Named>) -> bool {
    forall|k: int|
        0 <= k < all.len() ==> is_found(params, #[trigger] all[k])
}

/// Whether a parameter is found under its path.
spec fn is_found(params: Seq<Param>, given: Named) -> bool {
    if given.transposed {
        holds_exchanged(params, given.path, given.data)
    } else {
        holds(params, given.path, given.data)
    }
}

/// What stands at its place is what is found under its path.
proof fn lemma_found(c: Checkpoint, params: Seq<Param>, all: Seq<Named>)
    requires
        laid_out(all, c),
        all.len() == 12 * c.residual@.len() + 24,
        params.len() == all.len(),
        forall|i: int| 0 <= i < all.len() ==> (#[trigger] params[i]).stands_for(all[i]),
        forall|i: int| 0 <= i < all.len() ==> (#[trigger] all[i]).error() is None,
    ensures
        found(params, all),
{
    reveal(found);
    assert forall|k: int| 0 <= k < all.len() implies is_found(params, #[trigger] all[k]) by {
        let given = all[k];
        assert(params[k].stands_for(given));
        assert(given.error() is None);
        assert forall|i: int|
            0 <= i < params.len() && (#[trigger] params[i]).path@ == given.path implies i == k by {
            assert(params[i].stands_for(all[i]));
            lemma_paths_apart(all, c, i, k);
        }
    }
}

proof fn lemma_has_hex_conv(
    params: Seq<Param>,
    all: Seq<Named>,
    start: int,
    name: Seq<char>,
    p: HexConvParams,
)
    requires
        found(params, all),
        section(all, start, hex_conv_named(name, p)),
    ensures
        has_hex_conv(params, name, p),
{
    reveal(found);
    lemma_entry(all, start, hex_conv_named(name, p), 0);
    lemma_entry(all, start, hex_conv_named(name, p), 1);
    assert(is_found(params, all[start + 0]) && is_found(params, all[start + 1]));
}

proof fn lemma_has_conv(
    params: Seq<Param>,
    all: Seq<Named>,
    start: int,
    name: Seq<char>,
    p: LayerParams,
)
    requires
        found(params, all),
        section(all, start, conv_named(name, p)),
    ensures
        has_conv(params, name, p),
{
    reveal(found);
    lemma_entry(all, start, conv_named(name, p), 0);
    lemma_entry(all, start, conv_named(name, p), 1);
    assert(is_found(params, all[start + 0]) && is_found(params, all[start + 1]));
}

proof fn lemma_has_linear(
    params: Seq<Param>,
    all: Seq<Named>,
    start: int,
    name: Seq<char>,
    p: LayerParams,
)
    requires
        found(params, all),
        section(all, start, linear_named(name, p)),
    ensures
        has_linear(params, name, p),
{
    reveal(found);
    lemma_entry(all, start, linear_named(name, p), 0);
    lemma_entry(all, start, linear_named(name, p), 1);
    assert(is_found(params, all[start + 0]) && is_found(params, all[start + 1]));
}

proof fn lemma_has_norm(
    params: Seq<Param>,
    all: Seq<Named>,
    start: int,
    name: Seq<char>,
    p: BatchNormParams,
)
    requires
        found(params, all),
        section(all, start, norm_named(name, p)),
    ensures
        has_norm(params, name, p),
{
    reveal(found);
    lemma_entry(all, start, norm_named(name, p), 0);
    lemma_entry(all, start, norm_named(name, p), 1);
    lemma_entry(all, start, norm_named(name, p), 2);
    lemma_entry(all, start, norm_named(name, p), 3);
    assert(is_found(params, all[start + 0]) && is_found(params, all[start + 1]));
    assert(is_found(params, all[start + 2]) && is_found(params, all[start + 3]));
}

/// Whether everything outside the blocks goes by the name that the network has for it.
pub open spec fn all_named_right(c: Checkpoint, params: Seq<Param>) -> bool {
    &&& has_hex_conv(params, "input.conv"@, c.input.conv)
    &&& has_norm(params, "input.norm"@, c.input.norm)
    &&& has_conv(params, "policy.conv"@, c.policy.conv)
    &&& has_norm(params, "policy.norm"@, c.policy.norm)
    &&& has_linear(params, "policy.linear"@, c.policy.linear)
    &&& has_conv(params, "value.conv"@, c.value.conv)
    &&& has_norm(params, "value.norm"@, c.value.norm)
    &&& has_linear(params, "value.linear0"@, c.value.linear0)
    &&& has_linear(params, "value.linear1"@, c.value.linear1)
}

/// Whether everything in a block goes by the name that the network has for it.
pub open spec fn block_named_right(p: ResidualParams, i: nat, params: Seq<Param>) -> bool {
    let block = "residual."@ + decimal(i);
    &&& has_hex_conv(params, block + ".conv0"@, p.conv0)
    &&& has_norm(params, block + ".norm0"@, p.norm0)
    &&& has_hex_conv(params, block + ".conv1"@, p.conv1)
    &&& has_norm(params, block + ".norm1"@, p.norm1)
}

proof fn lemma_all_named_right(c: Checkpoint, params: Seq<Param>, all: Seq<Named>)
    requires
        laid_out(all, c),
        found(params, all),
    ensures
        all_named_right(c, params),
{
    let n = 12 * c.residual@.len() as int;
    reveal(laid_out);
    lemma_has_hex_conv(params, all, 0, "input.conv"@, c.input.conv);
    lemma_has_norm(params, all, 2, "input.norm"@, c.input.norm);
    lemma_has_conv(params, all, 6 + n, "policy.conv"@, c.policy.conv);
    lemma_has_norm(params, all, 8 + n, "policy.norm"@, c.policy.norm);
    lemma_has_linear(params, all, 12 + n, "policy.linear"@, c.policy.linear);
    lemma_has_conv(params, all, 14 + n, "value.conv"@, c.value.conv);
    lemma_has_norm(params, all, 16 + n, "value.norm"@, c.value.norm);
    lemma_has_linear(params, all, 20 + n, "value.linear0"@, c.value.linear0);
    lemma_has_linear(params, all, 22 + n, "value.linear1"@, c.value.linear1);
}

proof fn lemma_block_named_right(c: Checkpoint, params: Seq<Param>, all: Seq<Named>, i: int)
    requires
        laid_out(all, c),
        found(params, all),
        0 <= i < c.residual@.len(),
    ensures
        block_named_right(c.residual@[i], i as nat, params),
{
    reveal(laid_out);
    let p = c.residual@[i];
    let part = block_named(i as nat, p);
    let start = 6 + 12 * i;
    lemma_block_sections(i as nat, p);
    let conv0 = block_text(i as nat, ".conv0"@);
    let norm0 = block_text(i as nat, ".norm0"@);
    let conv1 = block_text(i as nat, ".conv1"@);
    let norm1 = block_text(i as nat, ".norm1"@);
    lemma_section_within(all, start, part, 0, hex_conv_named(conv0, p.conv0));
    lemma_section_within(all, start, part, 2, norm_named(norm0, p.norm0));
    lemma_section_within(all, start, part, 6, hex_conv_named(conv1, p.conv1));
    lemma_section_within(all, start, part, 8, norm_named(norm1, p.norm1));
    lemma_has_hex_conv(params, all, start + 0, conv0, p.conv0);
    lemma_has_norm(params, all, start + 2, norm0, p.norm0);
    lemma_has_hex_conv(params, all, start + 6, conv1, p.conv1);
    lemma_has_norm(params, all, start + 8, norm1, p.norm1);
}

/// Whatever is loaded from a checkpoint goes by the name that the network has for it: the kernels of
/// convolutions are weights, gamma and beta of normalizations are weight and bias, and the weights
/// of linear layers have their rows and columns exchanged.
#[verifier::rlimit(40)]
pub proof fn each_parameter_gets_its_name(c: &Checkpoint, params: Vec<Param>)
    requires
        call_ensures(Checkpoint::params, (c,), Ok(params)),
    ensures
        params@.len() == 24 + 12 * c.residual@.len(),
        all_named_right(*c, params@),
        forall|i: int|
            0 <= i < c.residual@.len() ==> block_named_right(
                #[trigger] c.residual@[i],
                i as nat,
                params@,
            ),
{
    lemma_laid_out(*c);
    let all = all_named(*c);
    lemma_loaded(*c, params, all);
    lemma_found(*c, params@, all);
    lemma_all_named_right(*c, params@, all);
    assert forall|i: int| 0 <= i < c.residual@.len() implies block_named_right(
        #[trigger] c.residual@[i],
        i as nat,
        params@,
    ) by {
        lemma_block_named_right(*c, params@, all, i);
    }
}

proof fn lemma_loaded(c: Checkpoint, params: Vec<Param>, all: Seq<Named>)
    requires
        loaded(all, Ok(params)),
    ensures
        params@.len() == all.len(),
        forall|i: int| 0 <= i < all.len() ==> (#[trigger] params@[i]).stands_for(all[i]),
        forall|i: int| 0 <= i < all.len() ==> (#[trigger] all[i]).error() is None,
{
    assert forall|i: int| 0 <= i < all.len() implies (#[trigger] all[i]).error() is None by {
        assert(loadable(all[i]));
    }
}

/// The size of the network that a checkpoint is said to be of fits what is loaded from it: the number
/// of its residual blocks, the outputs of its first convolution, and those of the first linear layer of
/// its value head.
#[verifier::rlimit(40)]
pub proof fn sizes_fit_the_parameters(
    c: &Checkpoint,
    params: Vec<Param>,
    config: ModelConfig,
    i: int,
)
    requires
        c.shaped(),
        call_ensures(Checkpoint::params, (c,), Ok(params)),
        call_ensures(Checkpoint::config, (c,), config),
        c.residual@.len() <= usize::MAX,
        0 <= i < params@.len(),
    ensures
        params@.len() == 24 + 12 * config.conv_layers,
        params@[i].path@ == "input.conv"@ + ".weight"@ ==> params@[i].shape@[0]
            == config.conv_channels,
        params@[i].path@ == "value.linear0"@ + ".weight"@ ==> params@[i].shape@[0]
            == config.value_hidden,
{
    each_parameter_gets_its_name(c, params);
    lemma_conv_shape(*c, params@, i);
    lemma_linear_shape(*c, params@, i);
}

proof fn lemma_conv_shape(c: Checkpoint, params: Seq<Param>, i: int)
    requires
        all_named_right(c, params),
        0 <= i < params.len(),
    ensures
        params[i].path@ == "input.conv"@ + ".weight"@ ==> params[i].shape@
            == c.input.conv.kernel.shape@,
{
    let stored = c.input.conv.kernel;
    assert(holds(params, "input.conv"@ + ".weight"@, stored));
}

proof fn lemma_linear_shape(c: Checkpoint, params: Seq<Param>, i: int)
    requires
        all_named_right(c, params),
        0 <= i < params.len(),
    ensures
        params[i].path@ == "value.linear0"@ + ".weight"@ ==> params[i].shape@[0]
            == c.value.linear0.weight.shape@[1],
{
    let stored = c.value.linear0.weight;
    assert(holds_exchanged(params, "value.linear0"@ + ".weight"@, stored));
    if params[i].path@ == "value.linear0"@ + ".weight"@ {
        assert(is_exchanged(params[i], stored));
    }
}

} // verus!
