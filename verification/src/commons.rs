use vstd::prelude::*;

verus! {

/// What the library reads of one tensor of an ONNX model's signature: its name and,
/// when the value is a tensor, its dimensions (a negative entry is a dynamic axis).
pub struct TensorInfo {
    pub name: String,
    pub dims: Option<Vec<i64>>,
}

/// The input and output tensors of an ONNX model, in the order the model declares them.
pub struct ModelSignature {
    pub inputs: Vec<TensorInfo>,
    pub outputs: Vec<TensorInfo>,
}

/// A D-FINE style detector and the spatial size of its image input.
pub struct DfineLike {
    pub input_width: u32,
    pub input_height: u32,
}

/// A YOLO style detector and the spatial size of its image input.
pub struct YoloLike {
    pub input_width: u32,
    pub input_height: u32,
}

/// A TIMM style classifier and the spatial size of its image input.
pub struct TimmLike {
    pub input_width: u32,
    pub input_height: u32,
}

/// The model family recognised from a signature.
pub enum Provider {
    DfineLike(DfineLike),
    YoloLike(YoloLike),
    TimmLike(TimmLike),
}

/// Why a model signature or a class table could not be used.
#[derive(PartialEq, Eq, Structural, Debug)]
pub enum ModelError {
    /// The tensor names match none of the known model families.
    UnknownProvider,
    /// No input of the requested name has at least two dimensions.
    InputShapeNotFound,
    /// No input has at least two dimensions.
    OnnxInputNotFound,
    /// No output has at least two dimensions.
    OnnxOutputNotFound,
    /// The class table is not a JSON object of strings.
    InvalidClassesJson,
}

/// A tensor whose last two dimensions can be read as an image size.
pub open spec fn has_image_dims(t: TensorInfo) -> bool {
    t.dims matches Some(d) && d@.len() > 1
}

/// The last two dimensions of a tensor, each truncated to 32 bits.
pub open spec fn image_dims(t: TensorInfo) -> (u32, u32)
    recommends
        has_image_dims(t),
{
    let d = t.dims.unwrap()@;
    (d[d.len() - 2] as u32, d[d.len() - 1] as u32)
}

/// `t` is an image tensor carrying the given name.
pub open spec fn is_named_image(t: TensorInfo, name: Seq<char>) -> bool {
    t.name@ == name && has_image_dims(t)
}

/// `i` is the position of the first image tensor in `ts`.
pub open spec fn is_first_image(ts: Seq<TensorInfo>, i: int) -> bool {
    &&& 0 <= i < ts.len()
    &&& has_image_dims(ts[i])
    &&& forall|j: int| 0 <= j < i ==> !has_image_dims(#[trigger] ts[j])
}

/// `i` is the position of the first image tensor named `name` in `ts`.
pub open spec fn is_first_named_image(ts: Seq<TensorInfo>, name: Seq<char>, i: int) -> bool {
    &&& 0 <= i < ts.len()
    &&& is_named_image(ts[i], name)
    &&& forall|j: int| 0 <= j < i ==> !is_named_image(#[trigger] ts[j], name)
}

/// The tensor names of `ts` are exactly `names`, in order.
pub open spec fn names_are(ts: Seq<TensorInfo>, names: Seq<Seq<char>>) -> bool {
    &&& ts.len() == names.len()
    &&& forall|i: int| 0 <= i < ts.len() ==> #[trigger] ts[i].name@ == names[i]
}

pub open spec fn dfine_input_names() -> Seq<Seq<char>> {
    seq!["images"@, "orig_target_sizes"@]
}

pub open spec fn dfine_output_names() -> Seq<Seq<char>> {
    seq!["labels"@, "boxes"@, "scores"@]
}

pub open spec fn yolo_input_names() -> Seq<Seq<char>> {
    seq!["images"@]
}

pub open spec fn yolo_output_names() -> Seq<Seq<char>> {
    seq!["output0"@]
}

pub open spec fn timm_input_names() -> Seq<Seq<char>> {
    seq!["input0"@]
}

pub open spec fn timm_output_names() -> Seq<Seq<char>> {
    seq!["output0"@]
}

pub open spec fn string_views(v: Seq<String>) -> Seq<Seq<char>> {
    v.map_values(|s: String| s@)
}

fn owned(s: &str) -> (r: String)
    ensures
        r@ == s@,
{
    s.to_owned()
}

fn name_list1(a: &str) -> (v: Vec<String>)
    ensures
        string_views(v@) == seq![a@],
{
    let mut v: Vec<String> = Vec::new();
    v.push(owned(a));
    assert(string_views(v@) =~= seq![a@]);
    v
}

fn name_list2(a: &str, b: &str) -> (v: Vec<String>)
    ensures
        string_views(v@) == seq![a@, b@],
{
    let mut v: Vec<String> = Vec::new();
    v.push(owned(a));
    v.push(owned(b));
    assert(string_views(v@) =~= seq![a@, b@]);
    v
}

fn name_list3(a: &str, b: &str, c: &str) -> (v: Vec<String>)
    ensures
        string_views(v@) == seq![a@, b@, c@],
{
    let mut v: Vec<String> = Vec::new();
    v.push(owned(a));
    v.push(owned(b));
    v.push(owned(c));
    assert(string_views(v@) =~= seq![a@, b@, c@]);
    v
}

/// Whether the tensor names are exactly `expected`, in order.
fn names_match(ts: &Vec<TensorInfo>, expected: &Vec<String>) -> (b: bool)
    ensures
        b == names_are(ts@, string_views(expected@)),
{
    if ts.len() != expected.len() {
        return false;
    }
    let n = ts.len();
    for i in 0..n
        invariant
            n == ts.len(),
            n == expected.len(),
            forall|j: int| 0 <= j < i ==> #[trigger] ts@[j].name@ == expected@[j]@,
    {
        if ts[i].name != expected[i] {
            assert(ts@[i as int].name@ != string_views(expected@)[i as int]);
            return false;
        }
    }
    true
}

/// Position of the first tensor with at least two dimensions, optionally restricted to
/// those carrying a given name.
fn find_image_tensor(ts: &Vec<TensorInfo>, name: Option<&str>) -> (r: Option<usize>)
    ensures
        name is None ==> match r {
            Some(i) => is_first_image(ts@, i as int),
            None => forall|j: int| 0 <= j < ts.len() ==> !has_image_dims(#[trigger] ts@[j]),
        },
        name matches Some(nm) ==> match r {
            Some(i) => is_first_named_image(ts@, nm@, i as int),
            None => forall|j: int| 0 <= j < ts.len() ==> !is_named_image(#[trigger] ts@[j], nm@),
        },
{
    let target: Option<String> = match name {
        Some(nm) => Some(owned(nm)),
        None => None,
    };
    let n = ts.len();
    for i in 0..n
        invariant
            n == ts.len(),
            name is None <==> target is None,
            name matches Some(nm) ==> target.unwrap()@ == nm@,
            name is None ==> forall|j: int| 0 <= j < i ==> !has_image_dims(#[trigger] ts@[j]),
            name matches Some(nm) ==> forall|j: int|
                0 <= j < i ==> !is_named_image(#[trigger] ts@[j], nm@),
    {
        let name_ok = match &target {
            Some(t) => ts[i].name == *t,
            None => true,
        };
        if name_ok {
            match &ts[i].dims {
                Some(dims) => {
                    if dims.len() > 1 {
                        return Some(i);
                    }
                },
                None => {},
            }
        }
    }
    None
}

/// Reads the last two dimensions of a tensor that has at least two.
fn read_image_dims(t: &TensorInfo) -> (wh: (u32, u32))
    requires
        has_image_dims(*t),
    ensures
        wh == image_dims(*t),
{
    let dims = t.dims.as_ref().unwrap();
    let d = dims.len();
    (dims[d - 2] as u32, dims[d - 1] as u32)
}

/// The spatial size of the first input named `input_name` that has at least two
/// dimensions: its second-to-last and last dimensions, truncated to 32 bits.
pub fn determine_input_shape(sig: &ModelSignature, input_name: &str) -> (res: Result<
    (u32, u32),
    ModelError,
>)
    ensures
        res is Ok <==> exists|i: int|
            0 <= i < sig.inputs@.len() && is_named_image(#[trigger] sig.inputs@[i], input_name@),
        res matches Ok(wh) ==> exists|i: int|
            #[trigger] is_first_named_image(sig.inputs@, input_name@, i) && wh == image_dims(
                sig.inputs@[i],
            ),
        res matches Ok(found) ==> exists|i: int|
            {
                let d = sig.inputs@[i].dims.unwrap()@;
                &&& 0 <= i < sig.inputs@.len()
                &&& #[trigger] sig.inputs@[i].name@ == input_name@
                &&& sig.inputs@[i].dims is Some
                &&& d.len() >= 2
                &&& found == (d[d.len() - 2] as u32, d[d.len() - 1] as u32)
                &&& forall|j: int|
                    0 <= j < i && sig.inputs@[j].name@ == input_name@ && sig.inputs@[j].dims is Some ==> sig.inputs@[j].dims.unwrap()@.len() < 2
            },
        res is Err ==> forall|i: int|
            0 <= i < sig.inputs@.len() && sig.inputs@[i].name@ == input_name@ && #[trigger] sig.inputs@[i].dims is Some ==> sig.inputs@[i].dims.unwrap()@.len() < 2,
        res matches Err(e) ==> e == ModelError::InputShapeNotFound,
{
    match find_image_tensor(&sig.inputs, Some(input_name)) {
        Some(i) => {
            let wh = read_image_dims(&sig.inputs[i]);
            assert(is_first_named_image(sig.inputs@, input_name@, i as int));
            Ok(wh)
        },
        None => Err(ModelError::InputShapeNotFound),
    }
}

/// The size to which images are resized for a channels-first (NCHW) input: the width
/// is the last axis and the height the one before it, each truncated to 32 bits.
pub open spec fn image_size(t: TensorInfo) -> (u32, u32)
    recommends
        has_image_dims(t),
{
    let d = t.dims.unwrap()@;
    (d[d.len() - 1] as u32, d[d.len() - 2] as u32)
}

/// The name of the first input that has at least two dimensions, and the size to which
/// images are resized to fit it: `(name, width, height)`, the width being its last axis
/// and the height the axis before.
pub fn determine_onnx_input(sig: &ModelSignature) -> (res: Result<(String, u32, u32), ModelError>)
    ensures
        res is Ok <==> exists|i: int|
            0 <= i < sig.inputs@.len() && has_image_dims(#[trigger] sig.inputs@[i]),
        res matches Ok(found) ==> exists|i: int|
            #[trigger] is_first_image(sig.inputs@, i) && found.0@ == sig.inputs@[i].name@ && (
            found.1, found.2) == image_size(sig.inputs@[i]),
        res matches Ok(found) ==> exists|i: int|
            {
                let d = sig.inputs@[i].dims.unwrap()@;
                &&& 0 <= i < sig.inputs@.len()
                &&& #[trigger] sig.inputs@[i].dims is Some
                &&& sig.inputs@[i].dims is Some
                &&& d.len() >= 2
                &&& found.0@ == sig.inputs@[i].name@ && found.1 == d[d.len() - 1] as u32 && found.2 == d[d.len() - 2] as u32
                &&& forall|j: int|
                    0 <= j < i && sig.inputs@[j].dims is Some ==> sig.inputs@[j].dims.unwrap()@.len() < 2
            },
        res is Err ==> forall|i: int|
            0 <= i < sig.inputs@.len() && #[trigger] sig.inputs@[i].dims is Some ==> sig.inputs@[i].dims.unwrap()@.len() < 2,
        res matches Err(e) ==> e == ModelError::OnnxInputNotFound,
{
    match find_image_tensor(&sig.inputs, None) {
        Some(i) => {
            let hw = read_image_dims(&sig.inputs[i]);
            assert(is_first_image(sig.inputs@, i as int));
            Ok((sig.inputs[i].name.clone(), hw.1, hw.0))
        },
        None => Err(ModelError::OnnxInputNotFound),
    }
}

/// The name and spatial size of the first output that has at least two dimensions.
pub fn determine_onnx_output(sig: &ModelSignature) -> (res: Result<(String, u32, u32), ModelError>)
    ensures
        res is Ok <==> exists|i: int|
            0 <= i < sig.outputs@.len() && has_image_dims(#[trigger] sig.outputs@[i]),
        res matches Ok(found) ==> exists|i: int|
            #[trigger] is_first_image(sig.outputs@, i) && found.0@ == sig.outputs@[i].name@ && (
            found.1, found.2) == image_dims(sig.outputs@[i]),
        res matches Ok(found) ==> exists|i: int|
            {
                let d = sig.outputs@[i].dims.unwrap()@;
                &&& 0 <= i < sig.outputs@.len()
                &&& #[trigger] sig.outputs@[i].dims is Some
                &&& sig.outputs@[i].dims is Some
                &&& d.len() >= 2
                &&& found.0@ == sig.outputs@[i].name@ && found.1 == d[d.len() - 2] as u32 && found.2 == d[d.len() - 1] as u32
                &&& forall|j: int|
                    0 <= j < i && sig.outputs@[j].dims is Some ==> sig.outputs@[j].dims.unwrap()@.len() < 2
            },
        res is Err ==> forall|i: int|
            0 <= i < sig.outputs@.len() && #[trigger] sig.outputs@[i].dims is Some ==> sig.outputs@[i].dims.unwrap()@.len() < 2,
        res matches Err(e) ==> e == ModelError::OnnxOutputNotFound,
{
    match find_image_tensor(&sig.outputs, None) {
        Some(i) => {
            let wh = read_image_dims(&sig.outputs[i]);
            assert(is_first_image(sig.outputs@, i as int));
            Ok((sig.outputs[i].name.clone(), wh.0, wh.1))
        },
        None => Err(ModelError::OnnxOutputNotFound),
    }
}

/// What `determine_provider` answers for a signature: the first family, in the order
/// D-FINE, YOLO, TIMM, whose input and output names the signature carries exactly,
/// with the size of its image input ("images" for the detectors, "input0" for the
/// classifier).
pub open spec fn provider_outcome(sig_inputs: Seq<TensorInfo>, sig_outputs: Seq<TensorInfo>) -> Result<
    (int, (u32, u32)),
    ModelError,
> {
    let (family, image_input) = if names_are(sig_inputs, dfine_input_names()) && names_are(
        sig_outputs,
        dfine_output_names(),
    ) {
        (0int, "images"@)
    } else if names_are(sig_inputs, yolo_input_names()) && names_are(
        sig_outputs,
        yolo_output_names(),
    ) {
        (1int, "images"@)
    } else if names_are(sig_inputs, timm_input_names()) && names_are(
        sig_outputs,
        timm_output_names(),
    ) {
        (2int, "input0"@)
    } else {
        (3int, Seq::empty())
    };
    if family == 3 {
        Err(ModelError::UnknownProvider)
    } else if exists|i: int|
        0 <= i < sig_inputs.len() && is_named_image(#[trigger] sig_inputs[i], image_input) {
        let i = choose|i: int| #[trigger] is_first_named_image(sig_inputs, image_input, i);
        Ok((family, image_dims(sig_inputs[i])))
    } else {
        Err(ModelError::InputShapeNotFound)
    }
}

/// The family of a provider (0 D-FINE, 1 YOLO, 2 TIMM) and its input size.
pub open spec fn provider_view(p: Provider) -> (int, (u32, u32)) {
    match p {
        Provider::DfineLike(m) => (0int, (m.input_width, m.input_height)),
        Provider::YoloLike(m) => (1int, (m.input_width, m.input_height)),
        Provider::TimmLike(m) => (2int, (m.input_width, m.input_height)),
    }
}

proof fn lemma_first_named_image_unique(ts: Seq<TensorInfo>, name: Seq<char>, i: int, j: int)
    requires
        is_first_named_image(ts, name, i),
        is_first_named_image(ts, name, j),
    ensures
        i == j,
{
    if i < j {
        assert(!is_named_image(ts[i], name));
    }
    if j < i {
        assert(!is_named_image(ts[j], name));
    }
}

/// Recognises the model family from the exact lists of input and output names and
/// reads the size of its image input.
pub fn determine_provider(sig: &ModelSignature) -> (res: Result<Provider, ModelError>)
    ensures
        match res {
            Ok(p) => provider_outcome(sig.inputs@, sig.outputs@) == Ok::<(int, (u32, u32)), ModelError>(provider_view(p)),
            Err(e) => provider_outcome(sig.inputs@, sig.outputs@) == Err::<(int, (u32, u32)), ModelError>(e),
        },
{
    let dfine_in = name_list2("images", "orig_target_sizes");
    let dfine_out = name_list3("labels", "boxes", "scores");
    let yolo_in = name_list1("images");
    let yolo_out = name_list1("output0");
    let timm_in = name_list1("input0");
    let timm_out = name_list1("output0");
    let ghost ins = sig.inputs@;
    let family: u8;
    let shape = if names_match(&sig.inputs, &dfine_in) && names_match(&sig.outputs, &dfine_out) {
        family = 0;
        determine_input_shape(sig, "images")
    } else if names_match(&sig.inputs, &yolo_in) && names_match(&sig.outputs, &yolo_out) {
        family = 1;
        determine_input_shape(sig, "images")
    } else if names_match(&sig.inputs, &timm_in) && names_match(&sig.outputs, &timm_out) {
        family = 2;
        determine_input_shape(sig, "input0")
    } else {
        return Err(ModelError::UnknownProvider);
    };
    let ghost image_input = if family == 2 { "input0"@ } else { "images"@ };
    match shape {
        Ok(wh) => {
            proof {
                let i = choose|i: int| #[trigger] is_first_named_image(ins, image_input, i) && wh == image_dims(ins[i]);
                let k = choose|k: int| #[trigger] is_first_named_image(ins, image_input, k);
                lemma_first_named_image_unique(ins, image_input, i, k);
            }
            if family == 0 {
                Ok(Provider::DfineLike(DfineLike { input_width: wh.0, input_height: wh.1 }))
            } else if family == 1 {
                Ok(Provider::YoloLike(YoloLike { input_width: wh.0, input_height: wh.1 }))
            } else {
                Ok(Provider::TimmLike(TimmLike { input_width: wh.0, input_height: wh.1 }))
            }
        },
        Err(e) => Err(e),
    }
}

proof fn lemma_first_named_exists(ts: Seq<TensorInfo>, name: Seq<char>, w: int)
    requires
        0 <= w < ts.len(),
        is_named_image(ts[w], name),
    ensures
        exists|i: int| #[trigger] is_first_named_image(ts, name, i),
    decreases w,
{
    if exists|j: int| 0 <= j < w && is_named_image(#[trigger] ts[j], name) {
        let j = choose|j: int| 0 <= j < w && is_named_image(#[trigger] ts[j], name);
        lemma_first_named_exists(ts, name, j);
    } else {
        assert(is_first_named_image(ts, name, w));
    }
}

/// The name of the image input that a family reads its size from.
pub open spec fn family_image_input(family: int) -> Seq<char> {
    if family == 2 { "input0"@ } else { "images"@ }
}

/// Law: the size that provider recognition reports is the size of the family's image
/// input ("images" for the detectors, "input0" for the classifier): the first input of
/// that name with at least two dimensions, its second-to-last and last dimensions, each
/// read as a 32-bit number, and exactly those dimensions wherever they fit in 32 bits.
pub proof fn lemma_provider_size_is_input_shape(ins: Seq<TensorInfo>, outs: Seq<TensorInfo>)
    ensures
        provider_outcome(ins, outs) matches Ok((family, wh)) ==> exists|i: int|
            {
                let d = ins[i].dims.unwrap()@;
                &&& 0 <= i < ins.len()
                &&& #[trigger] ins[i].name@ == family_image_input(family)
                &&& ins[i].dims is Some
                &&& d.len() >= 2
                &&& wh == (d[d.len() - 2] as u32, d[d.len() - 1] as u32)
                &&& (0 <= d[d.len() - 2] <= u32::MAX ==> wh.0 as int == d[d.len() - 2])
                &&& (0 <= d[d.len() - 1] <= u32::MAX ==> wh.1 as int == d[d.len() - 1])
                &&& forall|j: int|
                    0 <= j < i && ins[j].name@ == family_image_input(family) && #[trigger] ins[j].dims is Some
                        ==> ins[j].dims.unwrap()@.len() < 2
            },
{
    if let Ok((family, wh)) = provider_outcome(ins, outs) {
        let name = family_image_input(family);
        let w = choose|w: int| 0 <= w < ins.len() && is_named_image(#[trigger] ins[w], name);
        lemma_first_named_exists(ins, name, w);
        let i = choose|i: int| #[trigger] is_first_named_image(ins, name, i);
        assert(is_first_named_image(ins, name, i));
        assert forall|j: int|
            0 <= j < i && ins[j].name@ == name && #[trigger] ins[j].dims is Some implies ins[j].dims.unwrap()@.len() < 2 by {
            assert(!is_named_image(ins[j], name));
        }
    }
}

/// Law: the resize size of an image tensor is its last two dimensions swapped relative
/// to `image_dims` (width = last axis, height = the one before), each exactly the
/// dimension wherever it fits in 32 bits.
pub proof fn lemma_image_size(t: TensorInfo)
    requires
        has_image_dims(t),
    ensures
        image_size(t) == (image_dims(t).1, image_dims(t).0),
        ({
            let d = t.dims.unwrap()@;
            &&& (0 <= d[d.len() - 1] <= u32::MAX ==> image_size(t).0 as int == d[d.len() - 1])
            &&& (0 <= d[d.len() - 2] <= u32::MAX ==> image_size(t).1 as int == d[d.len() - 2])
            &&& (0 <= d[d.len() - 2] <= u32::MAX ==> image_dims(t).0 as int == d[d.len() - 2])
            &&& (0 <= d[d.len() - 1] <= u32::MAX ==> image_dims(t).1 as int == d[d.len() - 1])
        }),
{
}

/// The outcome for a family (0 D-FINE, 1 YOLO, 2 TIMM) once its names have matched: that
/// family, with an error only where no input of its image-input name has two dimensions.
pub open spec fn outcome_is_family(outcome: Result<(int, (u32, u32)), ModelError>, family: int, ins: Seq<TensorInfo>, image_input: Seq<char>) -> bool {
    &&& (outcome matches Ok((f, _)) ==> f == family)
    &&& (outcome is Err ==> outcome == Err::<(int, (u32, u32)), ModelError>(ModelError::InputShapeNotFound))
    &&& ((exists|i: int| 0 <= i < ins.len() && #[trigger] ins[i].name@ == image_input && ins[i].dims is Some
        && ins[i].dims.unwrap()@.len() >= 2) ==> outcome is Ok)
}

/// Law: which family a signature is recognised as, from its tensor names alone: inputs
/// "images", "orig_target_sizes" with outputs "labels", "boxes", "scores" make a D-FINE
/// model; input "images" with output "output0" a YOLO model; input "input0" with output
/// "output0" a TIMM model; a signature without inputs or without outputs is unknown.
pub proof fn lemma_provider_family(ins: Seq<TensorInfo>, outs: Seq<TensorInfo>)
    ensures
        ins.len() == 2 && ins[0].name@ == "images"@ && ins[1].name@ == "orig_target_sizes"@
            && outs.len() == 3 && outs[0].name@ == "labels"@ && outs[1].name@ == "boxes"@
            && outs[2].name@ == "scores"@ ==> outcome_is_family(provider_outcome(ins, outs), 0, ins, "images"@),
        ins.len() == 1 && ins[0].name@ == "images"@ && outs.len() == 1 && outs[0].name@ == "output0"@
            ==> outcome_is_family(provider_outcome(ins, outs), 1, ins, "images"@),
        ins.len() == 1 && ins[0].name@ == "input0"@ && outs.len() == 1 && outs[0].name@ == "output0"@
            ==> outcome_is_family(provider_outcome(ins, outs), 2, ins, "input0"@),
        ins.len() == 0 || outs.len() == 0 ==> provider_outcome(ins, outs) == Err::<(int, (u32, u32)), ModelError>(ModelError::UnknownProvider),
{
    reveal_strlit("images");
    reveal_strlit("input0");
    assert("images"@ != "input0"@) by {
        assert("images"@[1] != "input0"@[1]);
    }
    let is_named = |name: Seq<char>| exists|i: int| 0 <= i < ins.len() && #[trigger] ins[i].name@ == name && ins[i].dims is Some
        && ins[i].dims.unwrap()@.len() >= 2;
    if is_named("images"@) {
        let i = choose|i: int| 0 <= i < ins.len() && #[trigger] ins[i].name@ == "images"@ && ins[i].dims is Some
            && ins[i].dims.unwrap()@.len() >= 2;
        assert(is_named_image(ins[i], "images"@));
    }
    if is_named("input0"@) {
        let i = choose|i: int| 0 <= i < ins.len() && #[trigger] ins[i].name@ == "input0"@ && ins[i].dims is Some
            && ins[i].dims.unwrap()@.len() >= 2;
        assert(is_named_image(ins[i], "input0"@));
    }
    if ins.len() == 1 && ins[0].name@ == "input0"@ {
        assert(!names_are(ins, yolo_input_names()));
        assert(!names_are(ins, dfine_input_names()));
    }
    if ins.len() == 2 && ins[0].name@ == "images"@ && ins[1].name@ == "orig_target_sizes"@
        && outs.len() == 3 && outs[0].name@ == "labels"@ && outs[1].name@ == "boxes"@ && outs[2].name@ == "scores"@ {
        assert(names_are(ins, dfine_input_names()));
        assert(names_are(outs, dfine_output_names()));
    }
    if ins.len() == 1 && ins[0].name@ == "images"@ && outs.len() == 1 && outs[0].name@ == "output0"@ {
        assert(names_are(ins, yolo_input_names()));
        assert(names_are(outs, yolo_output_names()));
    }
    if ins.len() == 1 && ins[0].name@ == "input0"@ && outs.len() == 1 && outs[0].name@ == "output0"@ {
        assert(names_are(ins, timm_input_names()));
        assert(names_are(outs, timm_output_names()));
    }
}

} // verus!
