//! Chat markers: the special tokens of the chat families, found in the
//! vocabulary.

use vstd::prelude::*;

use crate::tokenizer::{Error, Tokenizer};

verus! {

/// The chat families, in the order in which a vocabulary is searched for
/// them, each with the markers that it is known by.
#[derive(Clone, Copy, Debug, PartialEq, Eq, Structural)]
pub enum ChatStyle {
    /// `<｜hy_User:opensource｜>`, `<｜hy_Assistant:opensource｜>` and think tags.
    Hy3,
    /// `<|im_user|>` and `<|im_middle|>`.
    Kimi,
    /// `<|im_start|>` and `<|im_end|>` (Qwen and kin).
    ChatMl,
    /// `<start_of_turn>` and `<end_of_turn>`.
    Gemma,
    /// `]~b]`, `[e~[` and `<mm:think>`.
    MiniMax,
    /// `<|message_user|>` and `<|message_model|>`.
    Inkling,
    /// `<｜User｜>` and `<｜Assistant｜>`, with think tags where there are any.
    DeepSeek,
    /// `[gMASK]<sop>`, as two tokens or as one, `<|user|>` and `<|assistant|>`.
    Glm,
    /// `<assistant>` and `<think>`, paired with closing tags.
    Laguna,
    /// `<|start|>` and `<|channel|>` (gpt-oss).
    Harmony,
    /// `<|open|>`, `<|close|>` and `<|end_of_msg|>`.
    KimiK3,
}

/// The special-token ids a chat loop needs, resolved from the vocab.
///
/// Every style has `bos` and `eos`, and `eot` where the model has one. Of the
/// markers each style has these, and no others:
///
/// - Hy3: `user`, `assistant`, `think_start`, `think_end`
/// - Kimi: `user`, `middle`
/// - ChatMl: `turn_start`, `turn_end`
/// - Gemma: `turn_start`, `turn_end`
/// - MiniMax: `turn_start`, `turn_end`, `think_start`
/// - Inkling: `user`, `assistant`
/// - DeepSeek: `user`, `assistant`, `think_start`, `think_end` (each of the
///   last two where the vocabulary holds it, as `<think>` or `</think>`)
/// - Glm: `prefix`, `prefix_end`, `user`, `assistant` (`prefix_end` where
///   `<sop>` is a token of its own)
/// - Laguna: `assistant`, `think_start`, `think_end` (the last where the
///   vocabulary holds `</think>`)
/// - Harmony: `turn_start`, `middle`
/// - KimiK3: `turn_start`, `turn_end`, `message_end`
///
/// A Hy3 turn is `[bos] [system-text] user <text> assistant think_start
/// think_end`, and a finished assistant reply is followed by eos in the
/// context.
#[derive(Debug, Clone, Copy)]
pub struct ChatMarkers {
    pub style: ChatStyle,
    pub bos: u32,
    pub eos: u32,
    pub eot: Option<u32>,
    /// Opens what the user says.
    pub user: Option<u32>,
    /// Opens what the model says.
    pub assistant: Option<u32>,
    /// Opens the thinking.
    pub think_start: Option<u32>,
    /// Closes the thinking.
    pub think_end: Option<u32>,
    /// Opens a turn, or any part of one.
    pub turn_start: Option<u32>,
    /// Closes a turn, or any part of one.
    pub turn_end: Option<u32>,
    /// Stands between the head of a turn and its text.
    pub middle: Option<u32>,
    /// Ends a whole message.
    pub message_end: Option<u32>,
    /// Stands at the start of the context.
    pub prefix: Option<u32>,
    /// Stands behind the prefix, where that is a token of its own.
    pub prefix_end: Option<u32>,
}

/// Whether the vocabulary holds a marker.
pub open spec fn holds(ids: Map<Seq<char>, u32>, marker: Seq<char>) -> bool {
    crate::bpe::lookup(ids, marker) is Some
}

/// Whether the vocabulary holds the markers that a style is known by.
pub open spec fn holds_style(ids: Map<Seq<char>, u32>, style: ChatStyle) -> bool {
    match style {
        ChatStyle::Hy3 => {
            &&& holds(ids, "<｜hy_User:opensource｜>"@)
            &&& holds(ids, "<｜hy_Assistant:opensource｜>"@)
            &&& holds(ids, "<think:opensource>"@)
            &&& holds(ids, "</think:opensource>"@)
        },
        ChatStyle::Kimi => {
            &&& holds(ids, "<|im_user|>"@)
            &&& holds(ids, "<|im_middle|>"@)
        },
        ChatStyle::ChatMl => {
            &&& holds(ids, "<|im_start|>"@)
            &&& holds(ids, "<|im_end|>"@)
        },
        ChatStyle::Gemma => {
            &&& holds(ids, "<start_of_turn>"@)
            &&& holds(ids, "<end_of_turn>"@)
        },
        ChatStyle::MiniMax => {
            &&& holds(ids, "]~b]"@)
            &&& holds(ids, "[e~["@)
            &&& holds(ids, "<mm:think>"@)
        },
        ChatStyle::Inkling => {
            &&& holds(ids, "<|message_user|>"@)
            &&& holds(ids, "<|message_model|>"@)
        },
        ChatStyle::DeepSeek => {
            &&& holds(ids, "<｜User｜>"@)
            &&& holds(ids, "<｜Assistant｜>"@)
        },
        ChatStyle::Glm => {
            &&& holds(ids, "[gMASK]"@) && holds(ids, "<sop>"@) || holds(ids, "[gMASK]<sop>"@)
            &&& holds(ids, "<|user|>"@)
            &&& holds(ids, "<|assistant|>"@)
        },
        ChatStyle::Laguna => {
            &&& holds(ids, "<assistant>"@)
            &&& holds(ids, "<think>"@)
        },
        ChatStyle::Harmony => {
            &&& holds(ids, "<|start|>"@)
            &&& holds(ids, "<|channel|>"@)
        },
        ChatStyle::KimiK3 => {
            &&& holds(ids, "<|open|>"@)
            &&& holds(ids, "<|close|>"@)
            &&& holds(ids, "<|end_of_msg|>"@)
        },
    }
}

/// The place of a style in the search.
pub open spec fn place_of(style: ChatStyle) -> int {
    match style {
        ChatStyle::Hy3 => 0,
        ChatStyle::Kimi => 1,
        ChatStyle::ChatMl => 2,
        ChatStyle::Gemma => 3,
        ChatStyle::MiniMax => 4,
        ChatStyle::Inkling => 5,
        ChatStyle::DeepSeek => 6,
        ChatStyle::Glm => 7,
        ChatStyle::Laguna => 8,
        ChatStyle::Harmony => 9,
        ChatStyle::KimiK3 => 10,
    }
}

/// The style of a vocabulary: the first whose markers it holds.
pub open spec fn style_of(ids: Map<Seq<char>, u32>) -> Option<ChatStyle> {
    if holds_style(ids, ChatStyle::Hy3) {
        Some(ChatStyle::Hy3)
    } else if holds_style(ids, ChatStyle::Kimi) {
        Some(ChatStyle::Kimi)
    } else if holds_style(ids, ChatStyle::ChatMl) {
        Some(ChatStyle::ChatMl)
    } else if holds_style(ids, ChatStyle::Gemma) {
        Some(ChatStyle::Gemma)
    } else if holds_style(ids, ChatStyle::MiniMax) {
        Some(ChatStyle::MiniMax)
    } else if holds_style(ids, ChatStyle::Inkling) {
        Some(ChatStyle::Inkling)
    } else if holds_style(ids, ChatStyle::DeepSeek) {
        Some(ChatStyle::DeepSeek)
    } else if holds_style(ids, ChatStyle::Glm) {
        Some(ChatStyle::Glm)
    } else if holds_style(ids, ChatStyle::Laguna) {
        Some(ChatStyle::Laguna)
    } else if holds_style(ids, ChatStyle::Harmony) {
        Some(ChatStyle::Harmony)
    } else if holds_style(ids, ChatStyle::KimiK3) {
        Some(ChatStyle::KimiK3)
    } else {
        None
    }
}

/// The first Hy3 marker that the vocabulary lacks.
pub open spec fn missing_marker(ids: Map<Seq<char>, u32>) -> &'static str {
    if !holds(ids, "<｜hy_User:opensource｜>"@) {
        "<｜hy_User:opensource｜>"
    } else if !holds(ids, "<｜hy_Assistant:opensource｜>"@) {
        "<｜hy_Assistant:opensource｜>"
    } else if !holds(ids, "<think:opensource>"@) {
        "<think:opensource>"
    } else {
        "</think:opensource>"
    }
}

/// The markers of a style in a vocabulary.
pub open spec fn style_markers(
    ids: Map<Seq<char>, u32>,
    style: ChatStyle,
    bos: u32,
    eos: u32,
    eot: Option<u32>,
) -> ChatMarkers {
    let none = ChatMarkers {
        style,
        bos,
        eos,
        eot,
        user: None,
        assistant: None,
        think_start: None,
        think_end: None,
        turn_start: None,
        turn_end: None,
        middle: None,
        message_end: None,
        prefix: None,
        prefix_end: None,
    };
    match style {
        ChatStyle::Hy3 => ChatMarkers {
            user: crate::bpe::lookup(ids, "<｜hy_User:opensource｜>"@),
            assistant: crate::bpe::lookup(ids, "<｜hy_Assistant:opensource｜>"@),
            think_start: crate::bpe::lookup(ids, "<think:opensource>"@),
            think_end: crate::bpe::lookup(ids, "</think:opensource>"@),
            ..none
        },
        ChatStyle::Kimi => ChatMarkers {
            user: crate::bpe::lookup(ids, "<|im_user|>"@),
            middle: crate::bpe::lookup(ids, "<|im_middle|>"@),
            ..none
        },
        ChatStyle::ChatMl => ChatMarkers {
            turn_start: crate::bpe::lookup(ids, "<|im_start|>"@),
            turn_end: crate::bpe::lookup(ids, "<|im_end|>"@),
            ..none
        },
        ChatStyle::Gemma => ChatMarkers {
            turn_start: crate::bpe::lookup(ids, "<start_of_turn>"@),
            turn_end: crate::bpe::lookup(ids, "<end_of_turn>"@),
            ..none
        },
        ChatStyle::MiniMax => ChatMarkers {
            turn_start: crate::bpe::lookup(ids, "]~b]"@),
            turn_end: crate::bpe::lookup(ids, "[e~["@),
            think_start: crate::bpe::lookup(ids, "<mm:think>"@),
            ..none
        },
        ChatStyle::Inkling => ChatMarkers {
            user: crate::bpe::lookup(ids, "<|message_user|>"@),
            assistant: crate::bpe::lookup(ids, "<|message_model|>"@),
            ..none
        },
        ChatStyle::DeepSeek => ChatMarkers {
            user: crate::bpe::lookup(ids, "<｜User｜>"@),
            assistant: crate::bpe::lookup(ids, "<｜Assistant｜>"@),
            think_start: crate::bpe::lookup(ids, "<think>"@),
            think_end: crate::bpe::lookup(ids, "</think>"@),
            ..none
        },
        ChatStyle::Glm => if holds(ids, "[gMASK]"@) && holds(ids, "<sop>"@) {
            ChatMarkers {
                prefix: crate::bpe::lookup(ids, "[gMASK]"@),
                prefix_end: crate::bpe::lookup(ids, "<sop>"@),
                user: crate::bpe::lookup(ids, "<|user|>"@),
                assistant: crate::bpe::lookup(ids, "<|assistant|>"@),
                ..none
            }
        } else {
            ChatMarkers {
                prefix: crate::bpe::lookup(ids, "[gMASK]<sop>"@),
                user: crate::bpe::lookup(ids, "<|user|>"@),
                assistant: crate::bpe::lookup(ids, "<|assistant|>"@),
                ..none
            }
        },
        ChatStyle::Laguna => ChatMarkers {
            assistant: crate::bpe::lookup(ids, "<assistant>"@),
            think_start: crate::bpe::lookup(ids, "<think>"@),
            think_end: crate::bpe::lookup(ids, "</think>"@),
            ..none
        },
        ChatStyle::Harmony => ChatMarkers {
            turn_start: crate::bpe::lookup(ids, "<|start|>"@),
            middle: crate::bpe::lookup(ids, "<|channel|>"@),
            ..none
        },
        ChatStyle::KimiK3 => ChatMarkers {
            turn_start: crate::bpe::lookup(ids, "<|open|>"@),
            turn_end: crate::bpe::lookup(ids, "<|close|>"@),
            message_end: crate::bpe::lookup(ids, "<|end_of_msg|>"@),
            ..none
        },
    }
}

/// The markers of a tokenizer, or what it lacks first: bos, eos, or a marker
/// of the first style where it has none.
pub open spec fn markers_of(t: Tokenizer) -> Result<ChatMarkers, Error> {
    if t.bos_id is None {
        Err(Error::MissingKey("bos_token_id"))
    } else if t.eos_id is None {
        Err(Error::MissingKey("eos_token_id"))
    } else {
        match style_of(t.ids()) {
            Some(style) => Ok(
                style_markers(t.ids(), style, t.bos_id->0, t.eos_id->0, t.eot_id),
            ),
            None => Err(Error::MissingKey(missing_marker(t.ids()))),
        }
    }
}

fn knows(t: &Tokenizer, marker: &str) -> (r: bool)
    ensures
        r == holds(t.ids(), marker@),
{
    t.find_token(marker).is_some()
}

fn find_style(t: &Tokenizer) -> (r: Option<ChatStyle>)
    ensures
        r == style_of(t.ids()),
{
    if knows(t, "<｜hy_User:opensource｜>") && knows(t, "<｜hy_Assistant:opensource｜>")
        && knows(t, "<think:opensource>") && knows(t, "</think:opensource>")
    {
        Some(ChatStyle::Hy3)
    } else if knows(t, "<|im_user|>") && knows(t, "<|im_middle|>") {
        Some(ChatStyle::Kimi)
    } else if knows(t, "<|im_start|>") && knows(t, "<|im_end|>") {
        Some(ChatStyle::ChatMl)
    } else if knows(t, "<start_of_turn>") && knows(t, "<end_of_turn>") {
        Some(ChatStyle::Gemma)
    } else if knows(t, "]~b]") && knows(t, "[e~[") && knows(t, "<mm:think>") {
        Some(ChatStyle::MiniMax)
    } else if knows(t, "<|message_user|>") && knows(t, "<|message_model|>") {
        Some(ChatStyle::Inkling)
    } else if knows(t, "<｜User｜>") && knows(t, "<｜Assistant｜>") {
        Some(ChatStyle::DeepSeek)
    } else if ((knows(t, "[gMASK]") && knows(t, "<sop>")) || knows(t, "[gMASK]<sop>"))
        && knows(t, "<|user|>") && knows(t, "<|assistant|>")
    {
        Some(ChatStyle::Glm)
    } else if knows(t, "<assistant>") && knows(t, "<think>") {
        Some(ChatStyle::Laguna)
    } else if knows(t, "<|start|>") && knows(t, "<|channel|>") {
        Some(ChatStyle::Harmony)
    } else if knows(t, "<|open|>") && knows(t, "<|close|>") && knows(t, "<|end_of_msg|>") {
        Some(ChatStyle::KimiK3)
    } else {
        None
    }
}

fn find_missing(t: &Tokenizer) -> (r: &'static str)
    ensures
        r == missing_marker(t.ids()),
{
    if !knows(t, "<｜hy_User:opensource｜>") {
        "<｜hy_User:opensource｜>"
    } else if !knows(t, "<｜hy_Assistant:opensource｜>") {
        "<｜hy_Assistant:opensource｜>"
    } else if !knows(t, "<think:opensource>") {
        "<think:opensource>"
    } else {
        "</think:opensource>"
    }
}

fn find_markers(t: &Tokenizer, style: ChatStyle, bos: u32, eos: u32) -> (m: ChatMarkers)
    ensures
        m == style_markers(t.ids(), style, bos, eos, t.eot_id),
{
    let mut m: ChatMarkers = ChatMarkers {
        style,
        bos,
        eos,
        eot: t.eot_id,
        user: None,
        assistant: None,
        think_start: None,
        think_end: None,
        turn_start: None,
        turn_end: None,
        middle: None,
        message_end: None,
        prefix: None,
        prefix_end: None,
    };
    match style {
        ChatStyle::Hy3 => {
            m.user = t.find_token("<｜hy_User:opensource｜>");
            m.assistant = t.find_token("<｜hy_Assistant:opensource｜>");
            m.think_start = t.find_token("<think:opensource>");
            m.think_end = t.find_token("</think:opensource>");
        },
        ChatStyle::Kimi => {
            m.user = t.find_token("<|im_user|>");
            m.middle = t.find_token("<|im_middle|>");
        },
        ChatStyle::ChatMl => {
            m.turn_start = t.find_token("<|im_start|>");
            m.turn_end = t.find_token("<|im_end|>");
        },
        ChatStyle::Gemma => {
            m.turn_start = t.find_token("<start_of_turn>");
            m.turn_end = t.find_token("<end_of_turn>");
        },
        ChatStyle::MiniMax => {
            m.turn_start = t.find_token("]~b]");
            m.turn_end = t.find_token("[e~[");
            m.think_start = t.find_token("<mm:think>");
        },
        ChatStyle::Inkling => {
            m.user = t.find_token("<|message_user|>");
            m.assistant = t.find_token("<|message_model|>");
        },
        ChatStyle::DeepSeek => {
            m.user = t.find_token("<｜User｜>");
            m.assistant = t.find_token("<｜Assistant｜>");
            m.think_start = t.find_token("<think>");
            m.think_end = t.find_token("</think>");
        },
        ChatStyle::Glm => {
            if knows(t, "[gMASK]") && knows(t, "<sop>") {
                m.prefix = t.find_token("[gMASK]");
                m.prefix_end = t.find_token("<sop>");
            } else {
                m.prefix = t.find_token("[gMASK]<sop>");
            }
            m.user = t.find_token("<|user|>");
            m.assistant = t.find_token("<|assistant|>");
        },
        ChatStyle::Laguna => {
            m.assistant = t.find_token("<assistant>");
            m.think_start = t.find_token("<think>");
            m.think_end = t.find_token("</think>");
        },
        ChatStyle::Harmony => {
            m.turn_start = t.find_token("<|start|>");
            m.middle = t.find_token("<|channel|>");
        },
        ChatStyle::KimiK3 => {
            m.turn_start = t.find_token("<|open|>");
            m.turn_end = t.find_token("<|close|>");
            m.message_end = t.find_token("<|end_of_msg|>");
        },
    }
    m
}

impl ChatMarkers {
    /// Finds the style of a vocabulary and its markers.
    pub fn resolve(t: &Tokenizer) -> (r: Result<ChatMarkers, Error>)
        ensures
            r == markers_of(*t),
            r is Ok <==> t.bos_id is Some && t.eos_id is Some && style_of(t.ids()) is Some,
            r matches Ok(m) ==> t.bos_id == Some(m.bos) && t.eos_id == Some(m.eos) && t.eot_id
                == m.eot,
    {
        let bos: u32 = t.bos_id.ok_or(Error::MissingKey("bos_token_id"))?;
        let eos: u32 = t.eos_id.ok_or(Error::MissingKey("eos_token_id"))?;
        match find_style(t) {
            Some(style) => Ok(find_markers(t, style, bos, eos)),
            None => Err(Error::MissingKey(find_missing(t))),
        }
    }

    /// Whether a token ends a reply.
    pub open spec fn stops_at(&self, id: u32) -> bool {
        id == self.eos || self.eot == Some(id)
    }

    /// Whether generation stops at a token.
    pub fn is_stop(&self, id: u32) -> (r: bool)
        ensures
            r == (id == self.eos || self.eot == Some(id)),
            r == self.stops_at(id),
    {
        id == self.eos || match self.eot {
            Some(eot) => id == eot,
            None => false,
        }
    }
}

/// A style is found exactly if the vocabulary holds its markers and those of
/// no style before it.
pub proof fn first_style_wins(ids: Map<Seq<char>, u32>, style: ChatStyle)
    ensures
        style_of(ids) == Some(style) <==> {
            &&& holds_style(ids, style)
            &&& forall|other: ChatStyle|
                place_of(other) < place_of(style) ==> !#[trigger] holds_style(ids, other)
        },
{
}

/// Every family is recognized: a vocabulary with the markers of any style has
/// a style.
pub proof fn every_style_is_recognized(ids: Map<Seq<char>, u32>, style: ChatStyle)
    requires
        holds_style(ids, style),
    ensures
        style_of(ids) matches Some(found) && place_of(found) <= place_of(style),
{
}

/// What is missing where no style is found is missing indeed.
pub proof fn missing_marker_is_missing(ids: Map<Seq<char>, u32>)
    requires
        style_of(ids) is None,
    ensures
        !holds(ids, missing_marker(ids)@),
{
}

/// The markers that a style is known by all have their ids.
pub proof fn found_markers_are_there(
    ids: Map<Seq<char>, u32>,
    style: ChatStyle,
    bos: u32,
    eos: u32,
    eot: Option<u32>,
)
    requires
        style_of(ids) == Some(style),
    ensures
        ({
            let m = style_markers(ids, style, bos, eos, eot);
            &&& m.style == style
            &&& match style {
                ChatStyle::Hy3 => m.user is Some && m.assistant is Some && m.think_start is Some
                    && m.think_end is Some,
                ChatStyle::Kimi => m.user is Some && m.middle is Some,
                ChatStyle::ChatMl | ChatStyle::Gemma => m.turn_start is Some && m.turn_end is Some,
                ChatStyle::MiniMax => m.turn_start is Some && m.turn_end is Some
                    && m.think_start is Some,
                ChatStyle::Inkling | ChatStyle::DeepSeek => m.user is Some && m.assistant is Some,
                ChatStyle::Glm => m.prefix is Some && m.user is Some && m.assistant is Some,
                ChatStyle::Laguna => m.assistant is Some && m.think_start is Some,
                ChatStyle::Harmony => m.turn_start is Some && m.middle is Some,
                ChatStyle::KimiK3 => m.turn_start is Some && m.turn_end is Some
                    && m.message_end is Some,
            }
        }),
{
}

/// A style is known by its markers: the vocabulary holds a style exactly if
/// these strings are in it.
pub proof fn styles_are_known_by_these_markers(ids: Map<Seq<char>, u32>)
    ensures
        holds_style(ids, ChatStyle::Hy3) <==> {
            &&& ids.contains_key("<｜hy_User:opensource｜>"@)
            &&& ids.contains_key("<｜hy_Assistant:opensource｜>"@)
            &&& ids.contains_key("<think:opensource>"@)
            &&& ids.contains_key("</think:opensource>"@)
        },
        holds_style(ids, ChatStyle::Kimi) <==> {
            &&& ids.contains_key("<|im_user|>"@)
            &&& ids.contains_key("<|im_middle|>"@)
        },
        holds_style(ids, ChatStyle::ChatMl) <==> {
            &&& ids.contains_key("<|im_start|>"@)
            &&& ids.contains_key("<|im_end|>"@)
        },
        holds_style(ids, ChatStyle::Gemma) <==> {
            &&& ids.contains_key("<start_of_turn>"@)
            &&& ids.contains_key("<end_of_turn>"@)
        },
        holds_style(ids, ChatStyle::MiniMax) <==> {
            &&& ids.contains_key("]~b]"@)
            &&& ids.contains_key("[e~["@)
            &&& ids.contains_key("<mm:think>"@)
        },
        holds_style(ids, ChatStyle::Inkling) <==> {
            &&& ids.contains_key("<|message_user|>"@)
            &&& ids.contains_key("<|message_model|>"@)
        },
        holds_style(ids, ChatStyle::DeepSeek) <==> {
            &&& ids.contains_key("<｜User｜>"@)
            &&& ids.contains_key("<｜Assistant｜>"@)
        },
        holds_style(ids, ChatStyle::Glm) <==> {
            &&& ids.contains_key("[gMASK]<sop>"@) || ids.contains_key("[gMASK]"@)
                && ids.contains_key("<sop>"@)
            &&& ids.contains_key("<|user|>"@)
            &&& ids.contains_key("<|assistant|>"@)
        },
        holds_style(ids, ChatStyle::Laguna) <==> {
            &&& ids.contains_key("<assistant>"@)
            &&& ids.contains_key("<think>"@)
        },
        holds_style(ids, ChatStyle::Harmony) <==> {
            &&& ids.contains_key("<|start|>"@)
            &&& ids.contains_key("<|channel|>"@)
        },
        holds_style(ids, ChatStyle::KimiK3) <==> {
            &&& ids.contains_key("<|open|>"@)
            &&& ids.contains_key("<|close|>"@)
            &&& ids.contains_key("<|end_of_msg|>"@)
        },
{
}

/// The styles are tried in this order.
pub proof fn styles_are_tried_in_order()
    ensures
        place_of(ChatStyle::Hy3) < place_of(ChatStyle::Kimi) < place_of(ChatStyle::ChatMl)
            < place_of(ChatStyle::Gemma) < place_of(ChatStyle::MiniMax) < place_of(
            ChatStyle::Inkling,
        ) < place_of(ChatStyle::DeepSeek) < place_of(ChatStyle::Glm) < place_of(ChatStyle::Laguna)
            < place_of(ChatStyle::Harmony) < place_of(ChatStyle::KimiK3),
{
}

/// Markers have their bos, eos and eot from the tokenizer, whatever the
/// style, and their style from the vocabulary.
pub proof fn markers_keep_the_special_ids(t: Tokenizer)
    requires
        markers_of(t) is Ok,
    ensures
        ({
            let m = markers_of(t)->Ok_0;
            &&& t.bos_id == Some(m.bos)
            &&& t.eos_id == Some(m.eos)
            &&& t.eot_id == m.eot
            &&& style_of(t.ids()) == Some(m.style)
        }),
{
}

/// Markers are found exactly where there are a bos, an eos and a style; and
/// what is reported else is the first that is not there, in this order.
pub proof fn what_is_missing_is_reported(t: Tokenizer)
    ensures
        markers_of(t) is Ok <==> t.bos_id is Some && t.eos_id is Some && style_of(t.ids()) is Some,
        t.bos_id is None ==> markers_of(t) == Err::<ChatMarkers, Error>(
            Error::MissingKey("bos_token_id"),
        ),
        t.bos_id is Some && t.eos_id is None ==> markers_of(t) == Err::<ChatMarkers, Error>(
            Error::MissingKey("eos_token_id"),
        ),
        t.bos_id is Some && t.eos_id is Some && style_of(t.ids()) is None ==> markers_of(t) == Err::<
            ChatMarkers,
            Error,
        >(
            Error::MissingKey(
                if !t.ids().contains_key("<｜hy_User:opensource｜>"@) {
                    "<｜hy_User:opensource｜>"
                } else if !t.ids().contains_key("<｜hy_Assistant:opensource｜>"@) {
                    "<｜hy_Assistant:opensource｜>"
                } else if !t.ids().contains_key("<think:opensource>"@) {
                    "<think:opensource>"
                } else {
                    "</think:opensource>"
                },
            ),
        ),
{
}

/// Each marker has the id of its string, and a style has no others.
pub proof fn markers_have_the_ids_of_their_strings(
    ids: Map<Seq<char>, u32>,
    style: ChatStyle,
    bos: u32,
    eos: u32,
    eot: Option<u32>,
)
    requires
        style_of(ids) == Some(style),
    ensures
        ({
            let m = style_markers(ids, style, bos, eos, eot);
            match style {
                ChatStyle::Hy3 => {
                    &&& m.user == Some(ids["<｜hy_User:opensource｜>"@])
                    &&& m.assistant == Some(ids["<｜hy_Assistant:opensource｜>"@])
                    &&& m.think_start == Some(ids["<think:opensource>"@])
                    &&& m.think_end == Some(ids["</think:opensource>"@])
                    &&& m.turn_start is None
                    &&& m.turn_end is None
                    &&& m.middle is None
                    &&& m.message_end is None
                    &&& m.prefix is None
                    &&& m.prefix_end is None
                },
                ChatStyle::Kimi => {
                    &&& m.user == Some(ids["<|im_user|>"@])
                    &&& m.middle == Some(ids["<|im_middle|>"@])
                    &&& m.assistant is None
                    &&& m.think_start is None
                    &&& m.think_end is None
                    &&& m.turn_start is None
                    &&& m.turn_end is None
                    &&& m.message_end is None
                    &&& m.prefix is None
                    &&& m.prefix_end is None
                },
                ChatStyle::ChatMl => {
                    &&& m.turn_start == Some(ids["<|im_start|>"@])
                    &&& m.turn_end == Some(ids["<|im_end|>"@])
                    &&& m.user is None
                    &&& m.assistant is None
                    &&& m.think_start is None
                    &&& m.think_end is None
                    &&& m.middle is None
                    &&& m.message_end is None
                    &&& m.prefix is None
                    &&& m.prefix_end is None
                },
                ChatStyle::Gemma => {
                    &&& m.turn_start == Some(ids["<start_of_turn>"@])
                    &&& m.turn_end == Some(ids["<end_of_turn>"@])
                    &&& m.user is None
                    &&& m.assistant is None
                    &&& m.think_start is None
                    &&& m.think_end is None
                    &&& m.middle is None
                    &&& m.message_end is None
                    &&& m.prefix is None
                    &&& m.prefix_end is None
                },
                ChatStyle::MiniMax => {
                    &&& m.turn_start == Some(ids["]~b]"@])
                    &&& m.turn_end == Some(ids["[e~["@])
                    &&& m.think_start == Some(ids["<mm:think>"@])
                    &&& m.user is None
                    &&& m.assistant is None
                    &&& m.think_end is None
                    &&& m.middle is None
                    &&& m.message_end is None
                    &&& m.prefix is None
                    &&& m.prefix_end is None
                },
                ChatStyle::Inkling => {
                    &&& m.user == Some(ids["<|message_user|>"@])
                    &&& m.assistant == Some(ids["<|message_model|>"@])
                    &&& m.think_start is None
                    &&& m.think_end is None
                    &&& m.turn_start is None
                    &&& m.turn_end is None
                    &&& m.middle is None
                    &&& m.message_end is None
                    &&& m.prefix is None
                    &&& m.prefix_end is None
                },
                ChatStyle::DeepSeek => {
                    &&& m.user == Some(ids["<｜User｜>"@])
                    &&& m.assistant == Some(ids["<｜Assistant｜>"@])
                    &&& m.think_start == if ids.contains_key("<think>"@) {
                        Some(ids["<think>"@])
                    } else {
                        None
                    }
                    &&& m.think_end == if ids.contains_key("</think>"@) {
                        Some(ids["</think>"@])
                    } else {
                        None
                    }
                    &&& m.turn_start is None
                    &&& m.turn_end is None
                    &&& m.middle is None
                    &&& m.message_end is None
                    &&& m.prefix is None
                    &&& m.prefix_end is None
                },
                ChatStyle::Glm => {
                    &&& m.user == Some(ids["<|user|>"@])
                    &&& m.assistant == Some(ids["<|assistant|>"@])
                    &&& if ids.contains_key("[gMASK]"@) && ids.contains_key("<sop>"@) {
                        m.prefix == Some(ids["[gMASK]"@]) && m.prefix_end == Some(ids["<sop>"@])
                    } else {
                        m.prefix == Some(ids["[gMASK]<sop>"@]) && m.prefix_end is None
                    }
                    &&& m.think_start is None
                    &&& m.think_end is None
                    &&& m.turn_start is None
                    &&& m.turn_end is None
                    &&& m.middle is None
                    &&& m.message_end is None
                },
                ChatStyle::Laguna => {
                    &&& m.assistant == Some(ids["<assistant>"@])
                    &&& m.think_start == Some(ids["<think>"@])
                    &&& m.think_end == if ids.contains_key("</think>"@) {
                        Some(ids["</think>"@])
                    } else {
                        None
                    }
                    &&& m.user is None
                    &&& m.turn_start is None
                    &&& m.turn_end is None
                    &&& m.middle is None
                    &&& m.message_end is None
                    &&& m.prefix is None
                    &&& m.prefix_end is None
                },
                ChatStyle::Harmony => {
                    &&& m.turn_start == Some(ids["<|start|>"@])
                    &&& m.middle == Some(ids["<|channel|>"@])
                    &&& m.user is None
                    &&& m.assistant is None
                    &&& m.think_start is None
                    &&& m.think_end is None
                    &&& m.turn_end is None
                    &&& m.message_end is None
                    &&& m.prefix is None
                    &&& m.prefix_end is None
                },
                ChatStyle::KimiK3 => {
                    &&& m.turn_start == Some(ids["<|open|>"@])
                    &&& m.turn_end == Some(ids["<|close|>"@])
                    &&& m.message_end == Some(ids["<|end_of_msg|>"@])
                    &&& m.user is None
                    &&& m.assistant is None
                    &&& m.think_start is None
                    &&& m.think_end is None
                    &&& m.middle is None
                    &&& m.prefix is None
                    &&& m.prefix_end is None
                },
            }
        }),
{
}

/// Generation stops at the end-of-sequence token, at the end-of-turn token
/// where there is one, and nowhere else; so it does at those of the tokenizer
/// that markers were found in.
pub proof fn generation_stops_at_eos_and_eot(m: ChatMarkers, t: Tokenizer, id: u32)
    ensures
        m.stops_at(m.eos),
        m.eot matches Some(eot) ==> m.stops_at(eot),
        m.stops_at(id) && id != m.eos ==> m.eot == Some(id),
        markers_of(t) == Ok::<ChatMarkers, Error>(m) ==> (m.stops_at(id) <==> t.eos_id == Some(id)
            || t.eot_id == Some(id)),
{
}

} // verus!
