//! What a controller is asked, and what its answers mean.

use vstd::prelude::*;
use vstd::string::*;
use crate::nn::train::error::{other_error, TrainError, TrainResult};
use crate::nn::train::positions::SERIALIZED_LEN;
use crate::parse::{a_decimal_is_read_back, parse_count, unsigned_value};
use crate::text::{decimal, push_decimal};

verus! {

/// Asks a controller.
#[derive(Debug)]
pub struct ControllerClient {
    pub controller_url: String,
}

/// The parameters of a model, with a tag by which newer ones can be told, unless they are those
/// that the tag sent along stands for.
pub enum FetchModelData {
    NotModified,
    Data(Option<String>, Vec<u8>),
}

impl FetchModelData {
    /// The tag and the parameters, if there are any.
    pub fn into_data(self) -> (data: Option<(Option<String>, Vec<u8>)>)
        ensures
            data == (match self {
                FetchModelData::NotModified => None,
                FetchModelData::Data(etag, data) => Some((etag, data)),
            }),
    {
        match self {
            FetchModelData::NotModified => None,
            FetchModelData::Data(etag, data) => Some((etag, data)),
        }
    }

    /// What a response with this status, tag and body means.
    pub fn from_response(status: u16, etag: Option<String>, body: Vec<u8>) -> (data: FetchModelData)
        ensures
            data == (if status == 304 {
                FetchModelData::NotModified
            } else {
                FetchModelData::Data(etag, body)
            }),
    {
        if status == 304 {
            FetchModelData::NotModified
        } else {
            FetchModelData::Data(etag, body)
        }
    }
}

/// Whether the address ends in a slash.
pub open spec fn ends_in_slash(url: Seq<char>) -> bool {
    url.len() > 0 && url.last() == '/'
}

/// Whether the address ends in a slash.
pub fn has_final_slash(url: &str) -> (has: bool)
    ensures
        has == ends_in_slash(url@),
{
    let n: usize = url.unicode_len();
    n > 0 && url.get_char(n - 1) == '/'
}

/// A number with its sign, if that is a minus.
pub open spec fn signed_text(n: int) -> Seq<char> {
    if n < 0 {
        "-"@ + decimal((-n) as nat)
    } else {
        decimal(n as nat)
    }
}

/// The address of something that belongs to a model.
pub open spec fn model_url(url: Seq<char>, id: Seq<char>, what: Seq<char>) -> Seq<char> {
    url + "/api/model/"@ + id + what
}

/// The part of an address that says where positions are to start.
pub open spec fn start_query(cursor: Option<isize>) -> Seq<char> {
    match cursor {
        Some(n) => "?start="@ + signed_text(n as int),
        None => ""@,
    }
}

/// Append a number with its sign.
fn push_signed(out: &mut String, n: isize)
    ensures
        final(out)@ == old(out)@ + signed_text(n as int),
{
    if n < 0 {
        out.append("-");
        push_decimal(out, (-(n as i128)) as u64);
    } else {
        push_decimal(out, n as u64);
    }
    assert(out@ =~= old(out)@ + signed_text(n as int));
}

impl ControllerClient {
    /// A client for the controller at an address, which must not end in a slash.
    pub fn new(controller_url: String) -> (client: ControllerClient)
        requires
            !ends_in_slash(controller_url@),
        ensures
            client.controller_url@ == controller_url@,
    {
        ControllerClient { controller_url }
    }

    /// Where models are listed.
    pub fn list_models(&self) -> (url: String)
        ensures
            url@ == self.controller_url@,
    {
        self.controller_url.clone()
    }

    /// Where models are created.
    pub fn create_model(&self) -> (url: String)
        ensures
            url@ == self.controller_url@ + "/api/model"@,
    {
        let mut url = self.controller_url.clone();
        url.append("/api/model");
        url
    }

    /// The address of something that belongs to a model.
    fn model(&self, model_id: &str, what: &str) -> (url: String)
        ensures
            url@ == model_url(self.controller_url@, model_id@, what@),
    {
        let mut url = self.controller_url.clone();
        url.append("/api/model/");
        url.append(model_id);
        url.append(what);
        url
    }

    /// Where the size of a model is found.
    pub fn fetch_config(&self, model_id: &str) -> (url: String)
        ensures
            url@ == model_url(self.controller_url@, model_id@, "/config"@),
    {
        self.model(model_id, "/config")
    }

    /// Where the latest parameters of a model are found.
    pub fn fetch_model_data(&self, model_id: &str) -> (url: String)
        ensures
            url@ == model_url(self.controller_url@, model_id@, "/params/latest"@),
    {
        self.model(model_id, "/params/latest")
    }

    /// Where the positions of a model are found, from `cursor` on.
    pub fn fetch_positions(&self, model_id: &str, cursor: Option<isize>) -> (url: String)
        ensures
            url@ == model_url(self.controller_url@, model_id@, "/positions"@) + start_query(cursor),
    {
        let mut url = self.model(model_id, "/positions");
        match cursor {
            Some(n) => {
                url.append("?start=");
                push_signed(&mut url, n);
            },
            None => url.append(""),
        }
        assert(url@ =~= model_url(self.controller_url@, model_id@, "/positions"@) + start_query(
            cursor,
        ));
        url
    }

    /// Where positions of a model are sent to.
    pub fn upload_positions(&self, model_id: &str) -> (url: String)
        ensures
            url@ == model_url(self.controller_url@, model_id@, "/positions"@),
    {
        self.model(model_id, "/positions")
    }

    /// Where parameters of a model are sent to.
    pub fn upload_params(&self, model_id: &str) -> (url: String)
        ensures
            url@ == model_url(self.controller_url@, model_id@, "/params"@),
    {
        self.model(model_id, "/params")
    }

    /// What an answer with positions means: where they end, if that can be read, and their bytes.
    pub fn positions_from(cursor: Option<&str>, data: Vec<u8>) -> (answer: TrainResult<
        (Option<usize>, Vec<u8>),
    >)
        ensures
            answer is Ok <==> data@.len() % 520 == 0,
            answer matches Err(e) ==> e matches TrainError::Other(text) && text@
                == "data length not a multiple of SERIALIZED_LEN"@,
            answer matches Ok((end, bytes)) ==> {
                &&& bytes == data
                &&& end is Some <==> cursor is Some && unsigned_value(
                    cursor->Some_0@,
                    usize::MAX as nat,
                ) is Some
                &&& end matches Some(n) ==> unsigned_value(cursor->Some_0@, usize::MAX as nat)
                    == Some(n as nat)
            },
    {
        let end: Option<usize> = match cursor {
            Some(text) => parse_count(text),
            None => None,
        };
        if data.len() % SERIALIZED_LEN != 0 {
            return Err(other_error("data length not a multiple of SERIALIZED_LEN"));
        }
        Ok((end, data))
    }
}

/// Where positions end is read back by the client as the controller wrote it.
pub proof fn the_cursor_comes_back(end: usize)
    ensures
        unsigned_value(decimal(end as nat), usize::MAX as nat) == Some(end as nat),
{
    a_decimal_is_read_back(end as nat, usize::MAX as nat);
}

/// The line that a new checkpoint adds to the log of a model.
pub open spec fn log_line_text(
    time: Seq<char>,
    name: Seq<char>,
    iters: Option<usize>,
    loss: Seq<char>,
    positions: nat,
) -> Seq<char> {
    time + ","@ + name + ","@ + (match iters {
        Some(n) => decimal(n as nat),
        None => ""@,
    }) + ","@ + loss + ","@ + decimal(positions) + "\n"@
}

/// The line that a new checkpoint adds to the log of a model. `loss` is empty where it is not
/// known.
pub fn log_line(
    time: &str,
    name: &str,
    iters: Option<usize>,
    loss: &str,
    positions: usize,
) -> (line: String)
    ensures
        line@ == log_line_text(time@, name@, iters, loss@, positions as nat),
{
    let mut line = String::new();
    line.append(time);
    line.append(",");
    line.append(name);
    line.append(",");
    match iters {
        Some(n) => push_decimal(&mut line, n as u64),
        None => line.append(""),
    }
    line.append(",");
    line.append(loss);
    line.append(",");
    push_decimal(&mut line, positions as u64);
    line.append("\n");
    assert(line@ =~= log_line_text(time@, name@, iters, loss@, positions as nat));
    line
}

} // verus!
