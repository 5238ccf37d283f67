//! The Rescue Prime Optimized round structure: constants, S-boxes and the
//! state layout shared by the RPO and RPX permutations.

use vstd::prelude::*;
use vstd::arithmetic::power2::pow2;
use crate::felt::{Felt, MODULUS, add_spec, mul_spec, pow_spec, lemma_pow_spec_mul, lemma_pow_spec_one};

pub mod mds;
pub mod digest;
pub mod sponge;
pub mod rpo;
pub mod rpx_digest;
pub mod rpx;

verus! {

/// Number of rounds of the permutation.
pub const NUM_ROUNDS: usize = 7;
/// Width of the permutation state, in field elements.
pub const STATE_WIDTH: usize = 12;
/// First index of the rate portion of the state.
pub const RATE_START: usize = 4;
/// One past the last index of the rate portion of the state.
pub const RATE_END: usize = 12;
/// Number of rate elements.
pub const RATE_WIDTH: usize = 8;
/// Start of the capacity portion of the state.
pub const CAPACITY_START: usize = 0;
/// Start of the first absorbed word.
pub const INPUT1_START: usize = 4;
/// Start of the second absorbed word.
pub const INPUT2_START: usize = 8;
/// First index of the digest within the state.
pub const DIGEST_START: usize = 4;
/// Number of elements in a digest.
pub const DIGEST_SIZE: usize = 4;
/// Number of bytes in a serialized digest.
pub const DIGEST_BYTES: usize = 32;
/// Bytes absorbed per field element when hashing a byte string.
pub const BINARY_CHUNK_SIZE: usize = 7;
/// The S-box exponent.
pub const ALPHA: u64 = 7u64;
/// The inverse S-box exponent, `ALPHA^-1 mod (p - 1)`.
pub const INV_ALPHA: u64 = 10540996611094048183u64;

/// The values held by a state.
pub open spec fn state_seq(s: [Felt; STATE_WIDTH]) -> Seq<nat> {
    Seq::new(STATE_WIDTH as nat, |i: int| s[i]@)
}

/// Raises every element to the seventh power.
pub open spec fn sbox_spec(s: Seq<nat>) -> Seq<nat> {
    Seq::new(s.len(), |i: int| pow_spec(s[i], 7))
}

/// Raises every element to the inverse S-box exponent.
pub open spec fn inv_sbox_spec(s: Seq<nat>) -> Seq<nat> {
    Seq::new(s.len(), |i: int| pow_spec(s[i], INV_ALPHA as nat))
}

/// Adds a constant vector element-wise.
pub open spec fn add_constants_spec(s: Seq<nat>, k: Seq<nat>) -> Seq<nat> {
    Seq::new(s.len(), |i: int| add_spec(s[i], k[i]))
}

/// Interprets raw constants as field values.
pub open spec fn constants_seq(k: Seq<u64>) -> Seq<nat> {
    Seq::new(k.len(), |i: int| k[i] as nat)
}

/// Round constants added before the forward S-box, by round.
pub open spec fn ark1_spec(round: int) -> Seq<u64> {
    if round == 0 {
        seq![5789762306288267392u64, 6522564764413701783u64, 17809893479458208203u64, 107145243989736508u64, 6388978042437517382u64, 15844067734406016715u64, 9975000513555218239u64, 3344984123768313364u64, 9959189626657347191u64, 12960773468763563665u64, 9602914297752488475u64, 16657542370200465908u64]
    } else if round == 1 {
        seq![12987190162843096997u64, 653957632802705281u64, 4441654670647621225u64, 4038207883745915761u64, 5613464648874830118u64, 13222989726778338773u64, 3037761201230264149u64, 16683759727265180203u64, 8337364536491240715u64, 3227397518293416448u64, 8110510111539674682u64, 2872078294163232137u64]
    } else if round == 2 {
        seq![18072785500942327487u64, 6200974112677013481u64, 17682092219085884187u64, 10599526828986756440u64, 975003873302957338u64, 8264241093196931281u64, 10065763900435475170u64, 2181131744534710197u64, 6317303992309418647u64, 1401440938888741532u64, 8884468225181997494u64, 13066900325715521532u64]
    } else if round == 3 {
        seq![5674685213610121970u64, 5759084860419474071u64, 13943282657648897737u64, 1352748651966375394u64, 17110913224029905221u64, 1003883795902368422u64, 4141870621881018291u64, 8121410972417424656u64, 14300518605864919529u64, 13712227150607670181u64, 17021852944633065291u64, 6252096473787587650u64]
    } else if round == 4 {
        seq![4887609836208846458u64, 3027115137917284492u64, 9595098600469470675u64, 10528569829048484079u64, 7864689113198939815u64, 17533723827845969040u64, 5781638039037710951u64, 17024078752430719006u64, 109659393484013511u64, 7158933660534805869u64, 2955076958026921730u64, 7433723648458773977u64]
    } else if round == 5 {
        seq![16308865189192447297u64, 11977192855656444890u64, 12532242556065780287u64, 14594890931430968898u64, 7291784239689209784u64, 5514718540551361949u64, 10025733853830934803u64, 7293794580341021693u64, 6728552937464861756u64, 6332385040983343262u64, 13277683694236792804u64, 2600778905124452676u64]
    } else {
        seq![7123075680859040534u64, 1034205548717903090u64, 7717824418247931797u64, 3019070937878604058u64, 11403792746066867460u64, 10280580802233112374u64, 337153209462421218u64, 13333398568519923717u64, 3596153696935337464u64, 8104208463525993784u64, 14345062289456085693u64, 17036731477169661256u64]
    }
}

/// Round constants added before the inverse S-box, by round.
pub open spec fn ark2_spec(round: int) -> Seq<u64> {
    if round == 0 {
        seq![6077062762357204287u64, 15277620170502011191u64, 5358738125714196705u64, 14233283787297595718u64, 13792579614346651365u64, 11614812331536767105u64, 14871063686742261166u64, 10148237148793043499u64, 4457428952329675767u64, 15590786458219172475u64, 10063319113072092615u64, 14200078843431360086u64]
    } else if round == 1 {
        seq![6202948458916099932u64, 17690140365333231091u64, 3595001575307484651u64, 373995945117666487u64, 1235734395091296013u64, 14172757457833931602u64, 707573103686350224u64, 15453217512188187135u64, 219777875004506018u64, 17876696346199469008u64, 17731621626449383378u64, 2897136237748376248u64]
    } else if round == 2 {
        seq![8023374565629191455u64, 15013690343205953430u64, 4485500052507912973u64, 12489737547229155153u64, 9500452585969030576u64, 2054001340201038870u64, 12420704059284934186u64, 355990932618543755u64, 9071225051243523860u64, 12766199826003448536u64, 9045979173463556963u64, 12934431667190679898u64]
    } else if round == 3 {
        seq![18389244934624494276u64, 16731736864863925227u64, 4440209734760478192u64, 17208448209698888938u64, 8739495587021565984u64, 17000774922218161967u64, 13533282547195532087u64, 525402848358706231u64, 16987541523062161972u64, 5466806524462797102u64, 14512769585918244983u64, 10973956031244051118u64]
    } else if round == 4 {
        seq![6982293561042362913u64, 14065426295947720331u64, 16451845770444974180u64, 7139138592091306727u64, 9012006439959783127u64, 14619614108529063361u64, 1394813199588124371u64, 4635111139507788575u64, 16217473952264203365u64, 10782018226466330683u64, 6844229992533662050u64, 7446486531695178711u64]
    } else if round == 5 {
        seq![3736792340494631448u64, 577852220195055341u64, 6689998335515779805u64, 13886063479078013492u64, 14358505101923202168u64, 7744142531772274164u64, 16135070735728404443u64, 12290902521256031137u64, 12059913662657709804u64, 16456018495793751911u64, 4571485474751953524u64, 17200392109565783176u64]
    } else {
        seq![17130398059294018733u64, 519782857322261988u64, 9625384390925085478u64, 1664893052631119222u64, 7629576092524553570u64, 3485239601103661425u64, 9755891797164033838u64, 15218148195153269027u64, 16460604813734957368u64, 9643968136937729763u64, 3611348709641382851u64, 18256379591337759196u64]
    }
}

/// The first round constants of `round`.
pub fn ark1_raw(round: usize) -> (r: [u64; STATE_WIDTH])
    requires
        round < NUM_ROUNDS,
    ensures
        r@ == ark1_spec(round as int),
        forall|i: int| 0 <= i < STATE_WIDTH ==> #[trigger] r[i] < MODULUS,
{
    let r = if round == 0 {
        [5789762306288267392u64, 6522564764413701783u64, 17809893479458208203u64, 107145243989736508u64, 6388978042437517382u64, 15844067734406016715u64, 9975000513555218239u64, 3344984123768313364u64, 9959189626657347191u64, 12960773468763563665u64, 9602914297752488475u64, 16657542370200465908u64]
    } else if round == 1 {
        [12987190162843096997u64, 653957632802705281u64, 4441654670647621225u64, 4038207883745915761u64, 5613464648874830118u64, 13222989726778338773u64, 3037761201230264149u64, 16683759727265180203u64, 8337364536491240715u64, 3227397518293416448u64, 8110510111539674682u64, 2872078294163232137u64]
    } else if round == 2 {
        [18072785500942327487u64, 6200974112677013481u64, 17682092219085884187u64, 10599526828986756440u64, 975003873302957338u64, 8264241093196931281u64, 10065763900435475170u64, 2181131744534710197u64, 6317303992309418647u64, 1401440938888741532u64, 8884468225181997494u64, 13066900325715521532u64]
    } else if round == 3 {
        [5674685213610121970u64, 5759084860419474071u64, 13943282657648897737u64, 1352748651966375394u64, 17110913224029905221u64, 1003883795902368422u64, 4141870621881018291u64, 8121410972417424656u64, 14300518605864919529u64, 13712227150607670181u64, 17021852944633065291u64, 6252096473787587650u64]
    } else if round == 4 {
        [4887609836208846458u64, 3027115137917284492u64, 9595098600469470675u64, 10528569829048484079u64, 7864689113198939815u64, 17533723827845969040u64, 5781638039037710951u64, 17024078752430719006u64, 109659393484013511u64, 7158933660534805869u64, 2955076958026921730u64, 7433723648458773977u64]
    } else if round == 5 {
        [16308865189192447297u64, 11977192855656444890u64, 12532242556065780287u64, 14594890931430968898u64, 7291784239689209784u64, 5514718540551361949u64, 10025733853830934803u64, 7293794580341021693u64, 6728552937464861756u64, 6332385040983343262u64, 13277683694236792804u64, 2600778905124452676u64]
    } else {
        [7123075680859040534u64, 1034205548717903090u64, 7717824418247931797u64, 3019070937878604058u64, 11403792746066867460u64, 10280580802233112374u64, 337153209462421218u64, 13333398568519923717u64, 3596153696935337464u64, 8104208463525993784u64, 14345062289456085693u64, 17036731477169661256u64]
    };
    assert(r@ =~= ark1_spec(round as int));
    r
}

/// The second round constants of `round`.
pub fn ark2_raw(round: usize) -> (r: [u64; STATE_WIDTH])
    requires
        round < NUM_ROUNDS,
    ensures
        r@ == ark2_spec(round as int),
        forall|i: int| 0 <= i < STATE_WIDTH ==> #[trigger] r[i] < MODULUS,
{
    let r = if round == 0 {
        [6077062762357204287u64, 15277620170502011191u64, 5358738125714196705u64, 14233283787297595718u64, 13792579614346651365u64, 11614812331536767105u64, 14871063686742261166u64, 10148237148793043499u64, 4457428952329675767u64, 15590786458219172475u64, 10063319113072092615u64, 14200078843431360086u64]
    } else if round == 1 {
        [6202948458916099932u64, 17690140365333231091u64, 3595001575307484651u64, 373995945117666487u64, 1235734395091296013u64, 14172757457833931602u64, 707573103686350224u64, 15453217512188187135u64, 219777875004506018u64, 17876696346199469008u64, 17731621626449383378u64, 2897136237748376248u64]
    } else if round == 2 {
        [8023374565629191455u64, 15013690343205953430u64, 4485500052507912973u64, 12489737547229155153u64, 9500452585969030576u64, 2054001340201038870u64, 12420704059284934186u64, 355990932618543755u64, 9071225051243523860u64, 12766199826003448536u64, 9045979173463556963u64, 12934431667190679898u64]
    } else if round == 3 {
        [18389244934624494276u64, 16731736864863925227u64, 4440209734760478192u64, 17208448209698888938u64, 8739495587021565984u64, 17000774922218161967u64, 13533282547195532087u64, 525402848358706231u64, 16987541523062161972u64, 5466806524462797102u64, 14512769585918244983u64, 10973956031244051118u64]
    } else if round == 4 {
        [6982293561042362913u64, 14065426295947720331u64, 16451845770444974180u64, 7139138592091306727u64, 9012006439959783127u64, 14619614108529063361u64, 1394813199588124371u64, 4635111139507788575u64, 16217473952264203365u64, 10782018226466330683u64, 6844229992533662050u64, 7446486531695178711u64]
    } else if round == 5 {
        [3736792340494631448u64, 577852220195055341u64, 6689998335515779805u64, 13886063479078013492u64, 14358505101923202168u64, 7744142531772274164u64, 16135070735728404443u64, 12290902521256031137u64, 12059913662657709804u64, 16456018495793751911u64, 4571485474751953524u64, 17200392109565783176u64]
    } else {
        [17130398059294018733u64, 519782857322261988u64, 9625384390925085478u64, 1664893052631119222u64, 7629576092524553570u64, 3485239601103661425u64, 9755891797164033838u64, 15218148195153269027u64, 16460604813734957368u64, 9643968136937729763u64, 3611348709641382851u64, 18256379591337759196u64]
    };
    assert(r@ =~= ark2_spec(round as int));
    r
}

/// The raw constants of a round as field elements.
fn felts_from_raw(raw: [u64; STATE_WIDTH]) -> (r: [Felt; STATE_WIDTH])
    requires
        forall|i: int| 0 <= i < STATE_WIDTH ==> #[trigger] raw[i] < MODULUS,
    ensures
        state_seq(r) == constants_seq(raw@),
{
    let mut r = [Felt::zero(); STATE_WIDTH];
    let mut i: usize = 0;
    while i < STATE_WIDTH
        invariant
            0 <= i <= STATE_WIDTH,
            forall|j: int| 0 <= j < STATE_WIDTH ==> #[trigger] raw[j] < MODULUS,
            forall|j: int| 0 <= j < i ==> #[trigger] r[j]@ == raw[j] as nat,
        decreases STATE_WIDTH - i,
    {
        r[i] = Felt::new(raw[i]);
        proof {
            vstd::arithmetic::div_mod::lemma_small_mod(raw[i as int] as nat, MODULUS as nat);
        }
        i = i + 1;
    }
    assert(state_seq(r) =~= constants_seq(raw@));
    r
}

/// The first round constants of `round` as field elements.
pub fn ark1(round: usize) -> (r: [Felt; STATE_WIDTH])
    requires
        round < NUM_ROUNDS,
    ensures
        state_seq(r) == constants_seq(ark1_spec(round as int)),
{
    felts_from_raw(ark1_raw(round))
}

/// The second round constants of `round` as field elements.
pub fn ark2(round: usize) -> (r: [Felt; STATE_WIDTH])
    requires
        round < NUM_ROUNDS,
    ensures
        state_seq(r) == constants_seq(ark2_spec(round as int)),
{
    felts_from_raw(ark2_raw(round))
}

/// Applies the forward S-box `x -> x^7` to every element of the state.
pub fn apply_sbox(state: &mut [Felt; STATE_WIDTH])
    ensures
        state_seq(*final(state)) == sbox_spec(state_seq(*old(state))),
{
    let ghost s0 = state_seq(*state);
    let mut i: usize = 0;
    while i < STATE_WIDTH
        invariant
            0 <= i <= STATE_WIDTH,
            s0.len() == STATE_WIDTH,
            forall|j: int| 0 <= j < i ==> #[trigger] state[j]@ == pow_spec(s0[j], 7),
            forall|j: int| i <= j < STATE_WIDTH ==> #[trigger] state[j]@ == s0[j],
        decreases STATE_WIDTH - i,
    {
        state[i] = state[i].exp7();
        i = i + 1;
    }
    assert(state_seq(*state) =~= sbox_spec(s0));
}

/// Adds the round constants `ark` element-wise to the state.
pub fn add_constants(state: &mut [Felt; STATE_WIDTH], ark: &[Felt; STATE_WIDTH])
    ensures
        state_seq(*final(state)) == add_constants_spec(state_seq(*old(state)), state_seq(*ark)),
{
    let ghost s0 = state_seq(*state);
    let mut i: usize = 0;
    while i < STATE_WIDTH
        invariant
            0 <= i <= STATE_WIDTH,
            s0.len() == STATE_WIDTH,
            forall|j: int| 0 <= j < i ==> #[trigger] state[j]@ == add_spec(s0[j], ark[j]@),
            forall|j: int| i <= j < STATE_WIDTH ==> #[trigger] state[j]@ == s0[j],
        decreases STATE_WIDTH - i,
    {
        state[i] = state[i].add(ark[i]);
        i = i + 1;
    }
    assert(state_seq(*state) =~= add_constants_spec(s0, state_seq(*ark)));
}

/// Squares every element `m` times and then multiplies by `tail`, so that powers
/// `x^eb` and `x^et` become `x^(eb * 2^m + et)`.
fn exp_acc(
    base: [Felt; STATE_WIDTH],
    tail: [Felt; STATE_WIDTH],
    m: usize,
    Ghost(x): Ghost<Seq<nat>>,
    Ghost(eb): Ghost<nat>,
    Ghost(et): Ghost<nat>,
) -> (r: [Felt; STATE_WIDTH])
    requires
        x.len() == STATE_WIDTH,
        forall|i: int| 0 <= i < STATE_WIDTH ==> #[trigger] base[i]@ == pow_spec(x[i], eb),
        forall|i: int| 0 <= i < STATE_WIDTH ==> #[trigger] tail[i]@ == pow_spec(x[i], et),
    ensures
        forall|i: int| 0 <= i < STATE_WIDTH ==> #[trigger] r[i]@ == pow_spec(x[i], eb * pow2(m as nat) + et),
{
    let mut result = base;
    let mut k: usize = 0;
    proof {
        vstd::arithmetic::power2::lemma2_to64();
    }
    while k < m
        invariant
            0 <= k <= m,
            x.len() == STATE_WIDTH,
            forall|i: int| 0 <= i < STATE_WIDTH ==> #[trigger] result[i]@ == pow_spec(x[i], eb * pow2(k as nat)),
        decreases m - k,
    {
        let mut i: usize = 0;
        while i < STATE_WIDTH
            invariant
                0 <= i <= STATE_WIDTH,
                0 <= k < m,
                x.len() == STATE_WIDTH,
                forall|j: int| 0 <= j < i ==> #[trigger] result[j]@ == pow_spec(x[j], 2 * (eb * pow2(k as nat))),
                forall|j: int| i <= j < STATE_WIDTH ==> #[trigger] result[j]@ == pow_spec(x[j], eb * pow2(k as nat)),
            decreases STATE_WIDTH - i,
        {
            proof {
                lemma_pow_spec_mul(x[i as int], eb * pow2(k as nat), eb * pow2(k as nat));
            }
            result[i] = result[i].square();
            i = i + 1;
        }
        proof {
            vstd::arithmetic::power2::lemma_pow2_unfold((k + 1) as nat);
            assert(2 * (eb * pow2(k as nat)) == eb * pow2((k + 1) as nat)) by (nonlinear_arith)
                requires
                    pow2((k + 1) as nat) == 2 * pow2(k as nat),
            ;
        }
        k = k + 1;
    }
    let mut i: usize = 0;
    while i < STATE_WIDTH
        invariant
            0 <= i <= STATE_WIDTH,
            x.len() == STATE_WIDTH,
            forall|j: int| 0 <= j < STATE_WIDTH ==> #[trigger] tail[j]@ == pow_spec(x[j], et),
            forall|j: int| 0 <= j < i ==> #[trigger] result[j]@ == pow_spec(x[j], eb * pow2(m as nat) + et),
            forall|j: int| i <= j < STATE_WIDTH ==> #[trigger] result[j]@ == pow_spec(x[j], eb * pow2(m as nat)),
        decreases STATE_WIDTH - i,
    {
        proof {
            lemma_pow_spec_mul(x[i as int], eb * pow2(m as nat), et);
        }
        result[i] = result[i].mul(tail[i]);
        i = i + 1;
    }
    result
}

/// Every element of a state is below the modulus.
pub fn state_bound(s: &[Felt; STATE_WIDTH])
    ensures
        forall|i: int| 0 <= i < STATE_WIDTH ==> #[trigger] s[i]@ < crate::felt::modulus(),
{
    let mut i: usize = 0;
    while i < STATE_WIDTH
        invariant
            0 <= i <= STATE_WIDTH,
            forall|j: int| 0 <= j < i ==> #[trigger] s[j]@ < crate::felt::modulus(),
        decreases STATE_WIDTH - i,
    {
        s[i].bound();
        i = i + 1;
    }
}

/// Squares every element of the state.
fn square_all(
    s: [Felt; STATE_WIDTH],
    Ghost(x): Ghost<Seq<nat>>,
    Ghost(e): Ghost<nat>,
) -> (r: [Felt; STATE_WIDTH])
    requires
        x.len() == STATE_WIDTH,
        forall|i: int| 0 <= i < STATE_WIDTH ==> #[trigger] s[i]@ == pow_spec(x[i], e),
    ensures
        forall|i: int| 0 <= i < STATE_WIDTH ==> #[trigger] r[i]@ == pow_spec(x[i], 2 * e),
{
    let mut r = s;
    let mut i: usize = 0;
    while i < STATE_WIDTH
        invariant
            0 <= i <= STATE_WIDTH,
            x.len() == STATE_WIDTH,
            forall|j: int| 0 <= j < i ==> #[trigger] r[j]@ == pow_spec(x[j], 2 * e),
            forall|j: int| i <= j < STATE_WIDTH ==> #[trigger] r[j]@ == pow_spec(x[j], e),
        decreases STATE_WIDTH - i,
    {
        proof {
            lemma_pow_spec_mul(x[i as int], e, e);
        }
        r[i] = r[i].square();
        i = i + 1;
    }
    r
}

/// Applies the inverse S-box `x -> x^INV_ALPHA` to every element of the state,
/// through a fixed chain of squarings and multiplications.
pub fn apply_inv_sbox(state: &mut [Felt; STATE_WIDTH])
    ensures
        state_seq(*final(state)) == inv_sbox_spec(state_seq(*old(state))),
{
    let ghost x = state_seq(*state);
    state_bound(state);
    proof {
        assert forall|i: int| 0 <= i < STATE_WIDTH implies #[trigger] state[i]@ == pow_spec(x[i], 1) by {
            lemma_pow_spec_one(x[i]);
        }
        vstd::arithmetic::power2::lemma2_to64();
    }
    let t1 = square_all(*state, Ghost(x), Ghost(1nat));
    let t2 = square_all(t1, Ghost(x), Ghost(2nat));
    let t3 = exp_acc(t2, t2, 3, Ghost(x), Ghost(4nat), Ghost(4nat));
    let t4 = exp_acc(t3, t3, 6, Ghost(x), Ghost(36nat), Ghost(36nat));
    let t5 = exp_acc(t4, t4, 12, Ghost(x), Ghost(2340nat), Ghost(2340nat));
    let t6 = exp_acc(t5, t3, 6, Ghost(x), Ghost(9586980nat), Ghost(36nat));
    let t7 = exp_acc(t6, t6, 31, Ghost(x), Ghost(613566756nat), Ghost(613566756nat));
    let ghost e7: nat = 1317624576079972644nat;
    let ghost e6: nat = 613566756nat;
    let mut i: usize = 0;
    while i < STATE_WIDTH
        invariant
            0 <= i <= STATE_WIDTH,
            x.len() == STATE_WIDTH,
            e7 == 1317624576079972644nat,
            e6 == 613566756nat,
            forall|j: int| 0 <= j < STATE_WIDTH ==> #[trigger] t1[j]@ == pow_spec(x[j], 2),
            forall|j: int| 0 <= j < STATE_WIDTH ==> #[trigger] t2[j]@ == pow_spec(x[j], 4),
            forall|j: int| 0 <= j < STATE_WIDTH ==> #[trigger] t6[j]@ == pow_spec(x[j], e6),
            forall|j: int| 0 <= j < STATE_WIDTH ==> #[trigger] t7[j]@ == pow_spec(x[j], e7),
            forall|j: int| 0 <= j < i ==> #[trigger] state[j]@ == pow_spec(x[j], INV_ALPHA as nat),
            forall|j: int| i <= j < STATE_WIDTH ==> #[trigger] state[j]@ == pow_spec(x[j], 1),
        decreases STATE_WIDTH - i,
    {
        let ghost xi = x[i as int];
        let a = t7[i].square().mul(t6[i]).square().square();
        let b = t1[i].mul(t2[i]).mul(state[i]);
        proof {
            let s1 = e7 + e7;
            let s2 = s1 + e6;
            let s3 = s2 + s2;
            let s4 = s3 + s3;
            lemma_pow_spec_mul(xi, e7, e7);
            lemma_pow_spec_mul(xi, s1, e6);
            lemma_pow_spec_mul(xi, s2, s2);
            lemma_pow_spec_mul(xi, s3, s3);
            lemma_pow_spec_mul(xi, 2, 4);
            lemma_pow_spec_mul(xi, 6, 1);
            lemma_pow_spec_mul(xi, s4, 7);
            assert(s4 + 7 == INV_ALPHA as nat);
        }
        state[i] = a.mul(b);
        i = i + 1;
    }
    assert(state_seq(*state) =~= inv_sbox_spec(x));
}

/// Fused constant addition and forward S-box; this build has no vectorised
/// implementation, so it reports `false` and leaves the state to the portable path.
pub fn add_constants_and_apply_sbox(state: &mut [Felt; STATE_WIDTH], ark: &[Felt; STATE_WIDTH]) -> (r: bool)
    ensures
        !r,
        *final(state) == *old(state),
{
    false
}

/// Fused constant addition and inverse S-box; this build has no vectorised
/// implementation, so it reports `false` and leaves the state to the portable path.
pub fn add_constants_and_apply_inv_sbox(state: &mut [Felt; STATE_WIDTH], ark: &[Felt; STATE_WIDTH]) -> (r: bool)
    ensures
        !r,
        *final(state) == *old(state),
{
    false
}

} // verus!
