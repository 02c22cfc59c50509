//! The models that a controller stores.

use iddqd::{IdHashItem, IdHashMap};
use sha2::Digest;
use vstd::prelude::*;
use vstd::string::*;
use crate::nn::model::{config_id, ModelConfig};
use crate::nn::train::names::{
    be_u32, before, checkpoint_name, checkpoint_text, checkpoints_among, checkpoints_come_in_order,
    sorted, sorted_checkpoints, texts,
};
use crate::nn::train::positions::{
    a_read_gives_back_what_was_appended, Positions, SERIALIZED_LEN,
};
use crate::text::same_text;

verus! {

/// The hash of the data.
pub uninterp spec fn sha256(data: Seq<u8>) -> Seq<u8>;

/// `sha2::Sha256::digest`: the hash, which has 32 bytes.
#[verifier::external_body]
pub(crate) fn sha256_digest(data: &[u8]) -> (digest: Vec<u8>)
    ensures
        digest@ == sha256(data@),
        digest@.len() == 32,
{
    sha2::Sha256::digest(data).to_vec()
}

/// A stored model: its name and size, the files that hold its parameters, and its positions.
#[derive(Debug)]
pub struct ModelInfo {
    pub id: String,
    pub config: ModelConfig,
    pub checkpoints: Vec<String>,
    pub positions: Positions,
}

/// A stored model as a value.
pub ghost struct InfoView {
    pub id: Seq<char>,
    pub config: ModelConfig,
    pub checkpoints: Seq<Seq<char>>,
    pub positions: usize,
}

impl View for ModelInfo {
    type V = InfoView;

    open spec fn view(&self) -> InfoView {
        InfoView {
            id: self.id@,
            config: self.config,
            checkpoints: texts(self.checkpoints@),
            positions: self.positions.count,
        }
    }
}

impl IdHashItem for ModelInfo {
    type Key<'a> = &'a str;

    fn key(&self) -> (key: &str)
        ensures
            key@ == self.id@,
    {
        self.id.as_str()
    }

    fn upcast_key<'short, 'long: 'short>(long: &'long str) -> (short: &'short str)
        ensures
            short@ == long@,
    {
        long
    }
}

impl InfoView {
    /// The model with one more checkpoint, named after its number and its content.
    pub open spec fn with_checkpoint(self, data: Seq<u8>) -> InfoView {
        InfoView {
            checkpoints: self.checkpoints.push(
                checkpoint_text(self.checkpoints.len(), be_u32(sha256(data)) as u32),
            ),
            ..self
        }
    }
}

impl ModelInfo {
    /// A model without parameters.
    pub fn init(config: ModelConfig, positions: Positions) -> (info: ModelInfo)
        ensures
            info@ == (InfoView {
                id: config_id(config),
                config,
                checkpoints: Seq::empty(),
                positions: positions.count,
            }),
    {
        let info = ModelInfo { id: config.id(), config, checkpoints: Vec::new(), positions };
        assert(texts(info.checkpoints@) =~= Seq::empty());
        info
    }

    /// A model from the entries of its directory, each with whether it is a file.
    pub fn load(
        id: String,
        entries: &Vec<(String, bool)>,
        config: ModelConfig,
        positions: Positions,
    ) -> (info: ModelInfo)
        ensures
            info.id@ == id@,
            info.config == config,
            info.positions == positions,
            sorted(info@.checkpoints),
            info@.checkpoints.to_multiset() == checkpoints_among(entries@).to_multiset(),
    {
        let checkpoints = sorted_checkpoints(entries);
        ModelInfo { id, config, checkpoints, positions }
    }

    /// The same model again.
    fn duplicate(&self) -> (info: ModelInfo)
        ensures
            info@ == self@,
    {
        let mut checkpoints: Vec<String> = Vec::new();
        let mut i: usize = 0;
        while i < self.checkpoints.len()
            invariant
                i <= self.checkpoints@.len(),
                checkpoints@.len() == i,
                forall|j: int| 0 <= j < i ==> (#[trigger] checkpoints@[j])@ == self.checkpoints@[j]@,
            decreases self.checkpoints@.len() - i,
        {
            checkpoints.push(self.checkpoints[i].clone());
            i = i + 1;
        }
        assert(texts(checkpoints@) =~= texts(self.checkpoints@));
        ModelInfo {
            id: self.id.clone(),
            config: self.config,
            checkpoints,
            positions: Positions { count: self.positions.count },
        }
    }

    /// The file that holds the latest parameters.
    pub fn latest(&self) -> (name: Option<&String>)
        ensures
            name is None <==> self@.checkpoints.len() == 0,
            name matches Some(name) ==> name@ == self@.checkpoints.last(),
    {
        let n: usize = self.checkpoints.len();
        if n == 0 {
            None
        } else {
            Some(&self.checkpoints[n - 1])
        }
    }

    /// Name a file for new parameters.
    pub fn write_checkpoint(&mut self, data: &[u8]) -> (name: String)
        ensures
            final(self)@ == old(self)@.with_checkpoint(data@),
            name@ == final(self)@.checkpoints.last(),
    {
        let digest = sha256_digest(data);
        let name = checkpoint_name(self.checkpoints.len(), &digest);
        self.checkpoints.push(name.clone());
        assert(texts(self.checkpoints@) =~= texts(old(self).checkpoints@).push(name@));
        name
    }
}

/// The stored models, each under its name.
#[verifier::external_body]
pub struct Models {
    map: IdHashMap<ModelInfo>,
}

/// What is stored.
pub uninterp spec fn models_in(models: Models) -> Map<Seq<char>, InfoView>;

/// Nothing is stored.
pub open spec fn no_models() -> Map<Seq<char>, InfoView> {
    Map::empty()
}

/// `iddqd::IdHashMap::new`: nothing is stored.
#[verifier::external_body]
fn new_map() -> (models: Models)
    ensures
        models_in(models) == no_models(),
{
    Models { map: IdHashMap::new() }
}

/// `IdHashMap::insert_unique`: stores the model unless there is one with its name.
#[verifier::external_body]
fn insert_new(models: &mut Models, info: ModelInfo) -> (inserted: bool)
    ensures
        inserted == !models_in(*old(models)).dom().contains(info.id@),
        models_in(*final(models)) == if inserted {
            models_in(*old(models)).insert(info.id@, info@)
        } else {
            models_in(*old(models))
        },
{
    models.map.insert_unique(info).is_ok()
}

/// `IdHashMap::contains_key`: whether there is a model with this name.
#[verifier::external_body]
fn has_model(models: &Models, id: &str) -> (has: bool)
    ensures
        has == models_in(*models).dom().contains(id@),
{
    models.map.contains_key(id)
}

/// `IdHashMap::get`: the model with this name.
#[verifier::external_body]
fn find_model<'a>(models: &'a Models, id: &str) -> (info: Option<&'a ModelInfo>)
    ensures
        info is Some <==> models_in(*models).dom().contains(id@),
        info matches Some(info) ==> info.id@ == id@ && info@ == models_in(*models)[id@],
{
    models.map.get(id)
}

/// `IdHashMap::get_mut`: the place of the model with this name, where another one with the same
/// name is put.
#[verifier::external_body]
fn replace_model(models: &mut Models, id: &str, info: ModelInfo) -> (replaced: bool)
    requires
        info.id@ == id@,
    ensures
        replaced == models_in(*old(models)).dom().contains(id@),
        models_in(*final(models)) == if replaced {
            models_in(*old(models)).insert(id@, info@)
        } else {
            models_in(*old(models))
        },
{
    models.map.get_mut(id).map(|mut place| *place = info).is_some()
}

/// `IdHashMap::iter`: each model once, in no particular order.
#[verifier::external_body]
fn all_models<'a>(models: &'a Models) -> (infos: Vec<&'a ModelInfo>)
    ensures
        infos@.len() == models_in(*models).dom().len(),
        forall|i: int|
            0 <= i < infos@.len() ==> models_in(*models).contains_pair(
                (#[trigger] infos@[i]).id@,
                infos@[i]@,
            ),
        forall|i: int, j: int|
            0 <= i < j < infos@.len() ==> (#[trigger] infos@[i]).id@ != (#[trigger] infos@[j]).id@,
{
    models.map.iter().collect()
}

/// Why a request is refused.
#[derive(Copy, Clone, Debug, PartialEq, Eq, Structural)]
pub enum Refusal {
    /// The client has this already.
    NotModified,
    /// The request makes no sense.
    BadRequest,
    /// There is no such model.
    NotFound,
    /// Something failed here.
    Internal,
}

impl Refusal {
    /// The status of the response.
    pub open spec fn code_spec(self) -> u16 {
        match self {
            Refusal::NotModified => 304,
            Refusal::BadRequest => 400,
            Refusal::NotFound => 404,
            Refusal::Internal => 500,
        }
    }

    /// The status of the response.
    pub fn code(self) -> (code: u16)
        ensures
            code == self.code_spec(),
    {
        match self {
            Refusal::NotModified => 304,
            Refusal::BadRequest => 400,
            Refusal::NotFound => 404,
            Refusal::Internal => 500,
        }
    }
}

/// Whether the request was refused for this reason.
pub open spec fn refused<T>(reply: Result<T, Refusal>, reason: Refusal) -> bool {
    reply is Err && reply->Err_0 == reason
}

/// What a listing says of a model.
#[derive(Debug)]
pub struct HttpListModelsItem {
    pub id: String,
    pub config: ModelConfig,
    pub checkpoints: Vec<String>,
}

/// A listing of models.
#[derive(Debug)]
pub struct HttpListModels {
    pub models: Vec<HttpListModelsItem>,
}

/// The tag of a file: its name in quotes.
pub open spec fn etag_text(name: Seq<char>) -> Seq<char> {
    "\""@ + name + "\""@
}

/// Where the positions asked for start: those before zero count from the end.
pub open spec fn positions_start(count: int, start: Option<isize>) -> int {
    match start {
        Some(i) => if i >= 0 {
            i as int
        } else if count + i >= 0 {
            count + i
        } else {
            0
        },
        None => 0,
    }
}

impl Models {
    /// Nothing is stored.
    pub fn new() -> (models: Models)
        ensures
            models_in(models) == no_models(),
    {
        new_map()
    }

    /// Store a model, unless there is one with its name.
    pub fn insert(&mut self, info: ModelInfo) -> (inserted: bool)
        ensures
            inserted == !models_in(*old(self)).dom().contains(info.id@),
            models_in(*final(self)) == if inserted {
                models_in(*old(self)).insert(info.id@, info@)
            } else {
                models_in(*old(self))
            },
    {
        insert_new(self, info)
    }

    /// The name of a model of the given size, and whether it has yet to be created.
    pub fn create_model(&self, config: ModelConfig) -> (plan: (String, bool))
        ensures
            plan.0@ == config_id(config),
            plan.1 == !models_in(*self).dom().contains(config_id(config)),
    {
        let id = config.id();
        let missing = !has_model(self, id.as_str());
        (id, missing)
    }

    /// The size of a model.
    pub fn get_config(&self, id: &str) -> (config: Result<ModelConfig, Refusal>)
        ensures
            config == (if models_in(*self).dom().contains(id@) {
                Ok::<ModelConfig, Refusal>(models_in(*self)[id@].config)
            } else {
                Err(Refusal::NotFound)
            }),
    {
        match find_model(self, id) {
            Some(info) => Ok(info.config),
            None => Err(Refusal::NotFound),
        }
    }

    /// Name a file for new parameters of a model.
    pub fn post_params(&mut self, id: &str, data: &[u8]) -> (name: Result<String, Refusal>)
        ensures
            name is Ok <==> models_in(*old(self)).dom().contains(id@),
            name matches Err(e) ==> e == Refusal::NotFound && models_in(*final(self)) == models_in(
                *old(self),
            ),
            name matches Ok(name) ==> {
                let after = models_in(*old(self))[id@].with_checkpoint(data@);
                &&& models_in(*final(self)) == models_in(*old(self)).insert(id@, after)
                &&& name@ == after.checkpoints.last()
            },
    {
        let mut info = match find_model(self, id) {
            Some(info) => info.duplicate(),
            None => return Err(Refusal::NotFound),
        };
        let name = info.write_checkpoint(data);
        if replace_model(self, id, info) {
            Ok(name)
        } else {
            Err(Refusal::NotFound)
        }
    }

    /// The file that holds the latest parameters of a model and its tag, unless the client has
    /// them already.
    pub fn get_params_latest(&self, id: &str, if_none_match: Option<&str>) -> (found: Result<
        (String, String),
        Refusal,
    >)
        ensures
            ({
                let models = models_in(*self);
                let known = models.dom().contains(id@) && models[id@].checkpoints.len() > 0;
                let latest = models[id@].checkpoints.last();
                let fresh = if_none_match matches Some(tag) && tag@ == etag_text(latest);
                &&& refused(found, Refusal::NotFound) <==> !known
                &&& refused(found, Refusal::NotModified) <==> known && fresh
                &&& found is Ok <==> known && !fresh
                &&& found matches Ok((name, tag)) ==> name@ == latest && tag@ == etag_text(latest)
            }),
    {
        let info = match find_model(self, id) {
            Some(info) => info,
            None => return Err(Refusal::NotFound),
        };
        let name = match info.latest() {
            Some(name) => name.clone(),
            None => return Err(Refusal::NotFound),
        };
        let mut etag = String::new();
        etag.append("\"");
        etag.append(name.as_str());
        etag.append("\"");
        if let Some(tag) = if_none_match {
            if same_text(tag, etag.as_str()) {
                return Err(Refusal::NotModified);
            }
        }
        Ok((name, etag))
    }

    /// Count the positions of a model that are about to be appended to its file. A file that would
    /// not fit in memory is refused.
    pub fn post_positions(&mut self, id: &str, body: &[u8]) -> (posted: Result<(), Refusal>)
        ensures
            ({
                let before = models_in(*old(self));
                let whole = body@.len() % 520 == 0;
                let known = before.dom().contains(id@);
                let fits = before[id@].positions * 520 + body@.len() <= usize::MAX;
                &&& refused(posted, Refusal::BadRequest) <==> !whole
                &&& refused(posted, Refusal::NotFound) <==> whole && !known
                &&& refused(posted, Refusal::Internal) <==> whole && known && !fits
                &&& posted is Ok <==> whole && known && fits
                &&& posted is Err ==> models_in(*final(self)) == before
                &&& posted is Ok ==> models_in(*final(self)) == before.insert(
                    id@,
                    (InfoView {
                        positions: (before[id@].positions + body@.len() / 520) as usize,
                        ..before[id@]
                    }),
                )
            }),
    {
        if body.len() % SERIALIZED_LEN != 0 {
            return Err(Refusal::BadRequest);
        }
        let mut info = match find_model(self, id) {
            Some(info) => info.duplicate(),
            None => return Err(Refusal::NotFound),
        };
        let n: usize = body.len();
        let count: usize = info.positions.count;
        if count > (usize::MAX - n) / SERIALIZED_LEN {
            return Err(Refusal::Internal);
        }
        match info.positions.push_serialized_many(body) {
            Ok(_) => {},
            Err(_) => return Err(Refusal::Internal),
        }
        if replace_model(self, id, info) {
            Ok(())
        } else {
            Err(Refusal::NotFound)
        }
    }

    /// Which bytes of the file of a model hold the positions asked for, and where those end.
    pub fn get_positions(&self, id: &str, start: Option<isize>) -> (range: Result<
        (usize, usize, usize),
        Refusal,
    >)
        ensures
            ({
                let models = models_in(*self);
                let known = models.dom().contains(id@);
                let count = models[id@].positions as int;
                let fits = count * 520 <= isize::MAX;
                let from = positions_start(count, start);
                &&& refused(range, Refusal::NotFound) <==> !known
                &&& refused(range, Refusal::Internal) <==> known && !fits
                &&& range is Ok <==> known && fits
                &&& range matches Ok((byte0, byte1, end)) ==> {
                    &&& byte0 == 520 * (if from < count {
                        from
                    } else {
                        count
                    })
                    &&& byte1 == 520 * count
                    &&& end == count
                }
            }),
    {
        let info = match find_model(self, id) {
            Some(info) => info,
            None => return Err(Refusal::NotFound),
        };
        let count: usize = info.positions.len();
        if count > (isize::MAX as usize) / SERIALIZED_LEN {
            return Err(Refusal::Internal);
        }
        let n: isize = count as isize;
        let from: usize = match start {
            Some(i) => if i >= 0 {
                i as usize
            } else if i >= -n {
                (n + i) as usize
            } else {
                0
            },
            None => 0,
        };
        Ok(info.positions.read_serialized_range(from, None))
    }

    /// All models, in no particular order.
    pub fn list(&self) -> (list: HttpListModels)
        ensures
            list.models@.len() == models_in(*self).dom().len(),
            forall|i: int|
                0 <= i < list.models@.len() ==> {
                    let item = #[trigger] list.models@[i];
                    &&& models_in(*self).dom().contains(item.id@)
                    &&& item.config == models_in(*self)[item.id@].config
                    &&& texts(item.checkpoints@) == models_in(*self)[item.id@].checkpoints
                },
            forall|i: int, j: int|
                0 <= i < j < list.models@.len() ==> (#[trigger] list.models@[i]).id@ != (
                #[trigger] list.models@[j]).id@,
    {
        let infos = all_models(self);
        let mut models: Vec<HttpListModelsItem> = Vec::new();
        let mut i: usize = 0;
        while i < infos.len()
            invariant
                i <= infos@.len(),
                models@.len() == i,
                forall|k: int|
                    0 <= k < i ==> (#[trigger] models@[k]).id@ == infos@[k].id@
                        && models@[k].config == infos@[k].config && texts(models@[k].checkpoints@)
                        == infos@[k]@.checkpoints,
            decreases infos@.len() - i,
        {
            let copy = infos[i].duplicate();
            models.push(
                HttpListModelsItem {
                    id: copy.id,
                    config: copy.config,
                    checkpoints: copy.checkpoints,
                },
            );
            i = i + 1;
        }
        proof {
            assert forall|k: int| 0 <= k < models@.len() implies {
                let item = #[trigger] models@[k];
                &&& models_in(*self).dom().contains(item.id@)
                &&& item.config == models_in(*self)[item.id@].config
                &&& texts(item.checkpoints@) == models_in(*self)[item.id@].checkpoints
            } by {
                assert(models_in(*self).contains_pair(infos@[k].id@, infos@[k]@));
            }
            assert forall|k: int, j: int| 0 <= k < j < models@.len() implies (
            #[trigger] models@[k]).id@ != (#[trigger] models@[j]).id@ by {
                assert(infos@[k].id@ != infos@[j].id@);
            }
        }
        HttpListModels { models }
    }
}

/// A tag stands for one file: a client that sends it back is told that nothing changed exactly as
/// long as that file is the latest.
pub proof fn a_tag_stands_for_one_file(a: Seq<char>, b: Seq<char>)
    ensures
        etag_text(a) == etag_text(b) <==> a == b,
{
    reveal_strlit("\"");
    let (x, y) = (etag_text(a), etag_text(b));
    if x == y {
        assert(a =~= x.subrange(1, x.len() - 1));
        assert(b =~= y.subrange(1, y.len() - 1));
    }
}

/// Each checkpoint of a model that is served comes behind all checkpoints before it, up to a
/// hundred thousand of them; so a sorted listing of them ends with the latest.
pub proof fn a_new_checkpoint_comes_last(info: InfoView, data: Seq<u8>, i: int, hash: u32)
    requires
        0 <= i < info.checkpoints.len(),
        info.checkpoints.len() < 100000,
        info.checkpoints[i] == checkpoint_text(i as nat, hash),
    ensures
        before(info.checkpoints[i], info.with_checkpoint(data).checkpoints.last()),
{
    checkpoints_come_in_order(
        i as nat,
        info.checkpoints.len(),
        hash,
        be_u32(sha256(data)) as u32,
    );
}

/// Positions that were posted can be fetched: asking from where the file ended before gives back
/// exactly the bytes that were appended.
pub proof fn posted_positions_can_be_fetched(file: Seq<u8>, body: Seq<u8>)
    requires
        file.len() % 520 == 0,
        body.len() % 520 == 0,
        file.len() + body.len() <= isize::MAX,
    ensures
        ({
            let count = (file.len() / 520) as int;
            let after = count + body.len() / 520;
            let from = positions_start(after, Some(count as isize));
            &&& from == count
            &&& (file + body).subrange(520 * from, 520 * after) == body
        }),
{
    a_read_gives_back_what_was_appended(file, body);
}

/// Asking for the last `n` positions gives `n` of them, or all where there are fewer.
pub proof fn counting_from_the_end(count: nat, n: isize)
    requires
        n > 0,
    ensures
        ({
            let start = positions_start(count as int, Some((-n) as isize));
            count - start == if n <= count {
                n as int
            } else {
                count as int
            }
        }),
{
}

} // verus!
