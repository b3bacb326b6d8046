//! The model's configuration as its `model.json` states it, and the map
//! from short tensor names (as stored in the GGUF file) to the full names of
//! the PyTorch checkpoint.
use vstd::prelude::*;
use vstd::string::StringExecFns;

verus! {

/// The `model.json` of a ZipVoice checkpoint.
#[derive(Debug)]
pub struct ModelJson {
    pub model: ModelConfig,
    pub feature: FeatureConfig,
}

/// The feature extraction settings of `model.json`.
#[derive(Debug)]
pub struct FeatureConfig {
    pub sampling_rate: u32,
    pub feature_type: String,
}

/// The network settings of `model.json`.
#[derive(Debug)]
pub struct ModelConfig {
    pub fm_decoder_downsampling_factor: Vec<u32>,
    pub fm_decoder_num_layers: Vec<u32>,
    pub fm_decoder_cnn_module_kernel: Vec<u32>,
    pub fm_decoder_feedforward_dim: u32,
    pub fm_decoder_num_heads: u32,
    pub fm_decoder_dim: u32,
    pub text_encoder_num_layers: u32,
    pub text_encoder_feedforward_dim: u32,
    pub text_encoder_cnn_module_kernel: u32,
    pub text_encoder_num_heads: u32,
    pub text_encoder_dim: u32,
    pub query_head_dim: u32,
    pub value_head_dim: u32,
    pub pos_head_dim: u32,
    pub pos_dim: u32,
    pub time_embed_dim: u32,
    pub text_embed_dim: u32,
    pub feat_dim: u32,
}

#[verifier::external_type_specification]
#[verifier::external_body]
pub struct ExJsonError(serde_json::Error);

/// The JSON object of strings that a text denotes, keyed and valued by
/// the strings' characters; `None` when the text is not such an object.
pub uninterp spec fn json_string_map(json: Seq<char>) -> Option<Map<Seq<char>, Seq<char>>>;

/// The entries list exactly the map, each key once.
pub open spec fn entries_match(entries: Seq<(String, String)>, m: Map<Seq<char>, Seq<char>>) -> bool {
    &&& forall|i: int, j: int|
        0 <= i < j < entries.len() ==> (#[trigger] entries[i]).0@ != (#[trigger] entries[j]).0@
    &&& forall|i: int|
        0 <= i < entries.len() ==> m.contains_key((#[trigger] entries[i]).0@) && m[entries[i].0@]
            == entries[i].1@
    &&& forall|k: Seq<char>|
        #[trigger] m.contains_key(k) ==> exists|i: int| 0 <= i < entries.len() && (#[trigger] entries[i]).0@ == k
}

/// `serde_json::from_str::<HashMap<String, String>>`, its entries listed in
/// the map's iteration order: the parse succeeds exactly when the text is a
/// JSON object of strings, and the entries are then that object's. The
/// order of the entries is the hash map's, which varies from process to
/// process, and is left unsaid.
#[verifier::external_body]
fn parse_json_string_map(json: &str) -> (r: Result<Vec<(String, String)>, serde_json::Error>)
    ensures
        r is Ok <==> json_string_map(json@) is Some,
        r matches Ok(v) ==> entries_match(v@, json_string_map(json@)->0),
{
    match serde_json::from_str::<std::collections::HashMap<String, String>>(json) {
        Ok(map) => Ok(map.into_iter().collect()),
        Err(err) => Err(err),
    }
}

/// Short tensor names (as the GGUF file stores them) to full names.
pub struct TensorNameMap {
    entries: Vec<(String, String)>,
    map: Ghost<Map<Seq<char>, Seq<char>>>,
}

impl View for TensorNameMap {
    type V = Map<Seq<char>, Seq<char>>;

    closed spec fn view(&self) -> Map<Seq<char>, Seq<char>> {
        self.map@
    }
}

impl TensorNameMap {
    #[verifier::type_invariant]
    spec fn entries_listed(self) -> bool {
        entries_match(self.entries@, self.map@)
    }

    /// The map that a JSON object of strings states; the JSON error when the
    /// text is not one.
    pub fn from_json(json: &str) -> (r: Result<TensorNameMap, serde_json::Error>)
        ensures
            r is Ok <==> json_string_map(json@) is Some,
            r matches Ok(m) ==> m@ == json_string_map(json@)->0,
    {
        match parse_json_string_map(json) {
            Ok(entries) => Ok(TensorNameMap { entries, map: Ghost(json_string_map(json@)->0) }),
            Err(e) => Err(e),
        }
    }

    /// A short name whose full name is `full_name`, if there is one (which
    /// one, when several are, is left open).
    pub fn short_name(&self, full_name: &str) -> (r: Option<&str>)
        ensures
            match r {
                Some(s) => self@.contains_key(s@) && self@[s@] == full_name@,
                None => forall|k: Seq<char>| #[trigger] self@.contains_key(k) ==> self@[k] != full_name@,
            },
    {
        proof {
            use_type_invariant(self);
        }
        let target = String::from_str(full_name);
        let mut i: usize = 0;
        while i < self.entries.len()
            invariant
                i <= self.entries@.len(),
                target@ == full_name@,
                entries_match(self.entries@, self.map@),
                forall|j: int| 0 <= j < i ==> (#[trigger] self.entries@[j]).1@ != full_name@,
            decreases self.entries@.len() - i,
        {
            if self.entries[i].1 == target {
                return Some(self.entries[i].0.as_str());
            }
            i += 1;
        }
        assert forall|k: Seq<char>| #[trigger] self@.contains_key(k) implies self@[k] != full_name@ by {
            let j = choose|j: int| 0 <= j < self.entries@.len() && (#[trigger] self.entries@[j]).0@ == k;
            assert(self.entries@[j].1@ != full_name@);
        }
        None
    }
}

} // verus!
