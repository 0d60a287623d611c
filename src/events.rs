//! The closed table of event command codes, and which parameter slots of
//! each command carry translatable text.

use vstd::prelude::*;

verus! {

/// An event command that the extractor recognises by its numeric code.
#[derive(Debug, Clone, Copy, PartialEq, Eq, Structural)]
pub enum EventCode {
    /// Message window setup; the speaker name is parameter 4.
    ShowTextSetup,
    /// One line of message text in parameter 0.
    ShowTextLine,
    /// A choice menu; parameter 0 lists the choices.
    ShowChoices,
    InputNumber,
    SelectItem,
    /// Scrolling text; the text is parameter 0.
    ShowScrollingText,
    /// One line of scrolling text in parameter 0.
    ShowScrollingTextLine,
    Comment,
    CommentContinuation,
    ConditionalBranch,
    Loop,
    BreakLoop,
    ExitEventProcessing,
    CommonEvent,
    Label,
    JumpToLabel,
    ControlSwitches,
    ControlVariables,
    ControlSelfSwitch,
    ControlTimer,
    ChangeGold,
    ChangeItems,
    ChangeWeapons,
    ChangeArmors,
    ChangePartyMember,
    TransferPlayer,
    SetVehicleLocation,
    SetEventLocation,
    ScrollMap,
    SetMovementRoute,
    ShowPicture,
    PlayBGM,
    FadeoutBGM,
    PlayBGS,
    FadeoutBGS,
    PlayME,
    PlaySE,
    BattleProcessing,
    ChangeHP,
    ChangeMP,
    ChangeState,
    RecoverAll,
    ForceAction,
    /// Change an actor's name; the new name is parameter 1.
    ChangeName,
    /// Change an actor's nickname; the new nickname is parameter 1.
    ChangeNickname,
    Script,
    PluginCommandMV,
    PluginCommandMZ,
    ScriptContinuation,
}

/// Where the translatable text of a command sits in its parameters.
pub enum TextSlots {
    /// No parameter holds text.
    Nothing,
    /// The string at this parameter index.
    Slot(usize),
    /// Every string of the list at parameter 0.
    ChoiceList,
}

impl EventCode {
    /// The numeric code of the command.
    pub open spec fn value(self) -> int {
        match self {
            EventCode::ShowTextSetup => 101,
            EventCode::ShowTextLine => 401,
            EventCode::ShowChoices => 102,
            EventCode::InputNumber => 103,
            EventCode::SelectItem => 104,
            EventCode::ShowScrollingText => 105,
            EventCode::ShowScrollingTextLine => 405,
            EventCode::Comment => 108,
            EventCode::CommentContinuation => 408,
            EventCode::ConditionalBranch => 111,
            EventCode::Loop => 112,
            EventCode::BreakLoop => 113,
            EventCode::ExitEventProcessing => 115,
            EventCode::CommonEvent => 117,
            EventCode::Label => 118,
            EventCode::JumpToLabel => 119,
            EventCode::ControlSwitches => 121,
            EventCode::ControlVariables => 122,
            EventCode::ControlSelfSwitch => 123,
            EventCode::ControlTimer => 124,
            EventCode::ChangeGold => 125,
            EventCode::ChangeItems => 126,
            EventCode::ChangeWeapons => 127,
            EventCode::ChangeArmors => 128,
            EventCode::ChangePartyMember => 129,
            EventCode::TransferPlayer => 201,
            EventCode::SetVehicleLocation => 202,
            EventCode::SetEventLocation => 203,
            EventCode::ScrollMap => 204,
            EventCode::SetMovementRoute => 205,
            EventCode::ShowPicture => 231,
            EventCode::PlayBGM => 241,
            EventCode::FadeoutBGM => 242,
            EventCode::PlayBGS => 245,
            EventCode::FadeoutBGS => 246,
            EventCode::PlayME => 249,
            EventCode::PlaySE => 250,
            EventCode::BattleProcessing => 301,
            EventCode::ChangeHP => 311,
            EventCode::ChangeMP => 312,
            EventCode::ChangeState => 313,
            EventCode::RecoverAll => 314,
            EventCode::ForceAction => 339,
            EventCode::ChangeName => 320,
            EventCode::ChangeNickname => 324,
            EventCode::Script => 355,
            EventCode::PluginCommandMV => 356,
            EventCode::PluginCommandMZ => 357,
            EventCode::ScriptContinuation => 655,
        }
    }

    /// The parameter slots that hold text for this command.
    pub open spec fn slots(self) -> TextSlots {
        match self {
            EventCode::ShowTextSetup => TextSlots::Slot(4),
            EventCode::ShowTextLine | EventCode::ShowScrollingText
            | EventCode::ShowScrollingTextLine => TextSlots::Slot(0),
            EventCode::ShowChoices => TextSlots::ChoiceList,
            EventCode::ChangeName | EventCode::ChangeNickname => TextSlots::Slot(1),
            _ => TextSlots::Nothing,
        }
    }

    /// The command with numeric code `code`, if the table has one.
    pub fn from_i64(code: i64) -> (r: Option<EventCode>)
        ensures
            r matches Some(e) ==> e.value() == code,
            r is None ==> forall|e: EventCode| #[trigger] e.value() != code,
    {
        match code {
            101 => Some(EventCode::ShowTextSetup),
            401 => Some(EventCode::ShowTextLine),
            102 => Some(EventCode::ShowChoices),
            103 => Some(EventCode::InputNumber),
            104 => Some(EventCode::SelectItem),
            105 => Some(EventCode::ShowScrollingText),
            405 => Some(EventCode::ShowScrollingTextLine),
            108 => Some(EventCode::Comment),
            408 => Some(EventCode::CommentContinuation),
            111 => Some(EventCode::ConditionalBranch),
            112 => Some(EventCode::Loop),
            113 => Some(EventCode::BreakLoop),
            115 => Some(EventCode::ExitEventProcessing),
            117 => Some(EventCode::CommonEvent),
            118 => Some(EventCode::Label),
            119 => Some(EventCode::JumpToLabel),
            121 => Some(EventCode::ControlSwitches),
            122 => Some(EventCode::ControlVariables),
            123 => Some(EventCode::ControlSelfSwitch),
            124 => Some(EventCode::ControlTimer),
            125 => Some(EventCode::ChangeGold),
            126 => Some(EventCode::ChangeItems),
            127 => Some(EventCode::ChangeWeapons),
            128 => Some(EventCode::ChangeArmors),
            129 => Some(EventCode::ChangePartyMember),
            201 => Some(EventCode::TransferPlayer),
            202 => Some(EventCode::SetVehicleLocation),
            203 => Some(EventCode::SetEventLocation),
            204 => Some(EventCode::ScrollMap),
            205 => Some(EventCode::SetMovementRoute),
            231 => Some(EventCode::ShowPicture),
            241 => Some(EventCode::PlayBGM),
            242 => Some(EventCode::FadeoutBGM),
            245 => Some(EventCode::PlayBGS),
            246 => Some(EventCode::FadeoutBGS),
            249 => Some(EventCode::PlayME),
            250 => Some(EventCode::PlaySE),
            301 => Some(EventCode::BattleProcessing),
            311 => Some(EventCode::ChangeHP),
            312 => Some(EventCode::ChangeMP),
            313 => Some(EventCode::ChangeState),
            314 => Some(EventCode::RecoverAll),
            339 => Some(EventCode::ForceAction),
            320 => Some(EventCode::ChangeName),
            324 => Some(EventCode::ChangeNickname),
            355 => Some(EventCode::Script),
            356 => Some(EventCode::PluginCommandMV),
            357 => Some(EventCode::PluginCommandMZ),
            655 => Some(EventCode::ScriptContinuation),
            _ => None,
        }
    }

    /// The parameter slots that hold text for this command.
    pub fn text_slots(&self) -> (r: TextSlots)
        ensures
            r == self.slots(),
    {
        match self {
            EventCode::ShowTextSetup => TextSlots::Slot(4),
            EventCode::ShowTextLine | EventCode::ShowScrollingText
            | EventCode::ShowScrollingTextLine => TextSlots::Slot(0),
            EventCode::ShowChoices => TextSlots::ChoiceList,
            EventCode::ChangeName | EventCode::ChangeNickname => TextSlots::Slot(1),
            _ => TextSlots::Nothing,
        }
    }
}

} // verus!
