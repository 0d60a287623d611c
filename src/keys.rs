//! Key lists that steer extraction from plain mappings.

use vstd::prelude::*;
use crate::document::same_text;

verus! {

/// Keys whose string values are displayable text.
pub open spec fn is_text_key(k: Seq<char>) -> bool {
    k == "name"@
        || k == "description"@
        || k == "message1"@
        || k == "message2"@
        || k == "message3"@
        || k == "message4"@
        || k == "note"@
        || k == "nickname"@
        || k == "profile"@
        || k == "gameTitle"@
        || k == "currencyUnit"@
        || k == "terms"@
        || k == "basic"@
        || k == "commands"@
        || k == "params"@
        || k == "messages"@
        || k == "actionFailure"@
        || k == "actorDamage"@
        || k == "actorDrain"@
        || k == "actorGain"@
        || k == "actorLoss"@
        || k == "actorNoDamage"@
        || k == "actorNoHit"@
        || k == "actorRecovery"@
        || k == "alwaysDash"@
        || k == "bgmVolume"@
        || k == "bgsVolume"@
        || k == "buffAdd"@
        || k == "buffRemove"@
        || k == "commandRemember"@
        || k == "counterAttack"@
        || k == "criticalToActor"@
        || k == "criticalToEnemy"@
        || k == "debuffAdd"@
        || k == "defeat"@
        || k == "emerge"@
        || k == "enemyDamage"@
        || k == "enemyDrain"@
        || k == "enemyGain"@
        || k == "enemyLoss"@
        || k == "enemyNoDamage"@
        || k == "enemyNoHit"@
        || k == "enemyRecovery"@
        || k == "escapeFailure"@
        || k == "escapeStart"@
        || k == "evasion"@
        || k == "expNext"@
        || k == "expTotal"@
        || k == "file"@
        || k == "levelUp"@
        || k == "loadMessage"@
        || k == "magicEvasion"@
        || k == "magicReflection"@
        || k == "meVolume"@
        || k == "obtainExp"@
        || k == "obtainGold"@
        || k == "obtainItem"@
        || k == "obtainSkill"@
        || k == "partyName"@
        || k == "possession"@
        || k == "preemptive"@
        || k == "saveMessage"@
        || k == "seVolume"@
        || k == "substitute"@
        || k == "surprise"@
        || k == "useItem"@
        || k == "victory"@
}

/// Keys whose values hold file names or script code, never walked.
pub open spec fn is_skipped_key(k: Seq<char>) -> bool {
    k == "se"@
        || k == "bgm"@
        || k == "bgs"@
        || k == "me"@
        || k == "animation1Name"@
        || k == "animation2Name"@
        || k == "battlerName"@
        || k == "characterName"@
        || k == "faceName"@
        || k == "motion"@
        || k == "overlay1Name"@
        || k == "overlay2Name"@
        || k == "tileset"@
        || k == "parallaxName"@
        || k == "battleback1Name"@
        || k == "battleback2Name"@
        || k == "script"@
        || k == "url"@
}

/// Whether `k` is a key whose string values are displayable text.
pub fn text_key(k: &str) -> (r: bool)
    ensures
        r == is_text_key(k@),
{
    same_text(k, "name")
        || same_text(k, "description")
        || same_text(k, "message1")
        || same_text(k, "message2")
        || same_text(k, "message3")
        || same_text(k, "message4")
        || same_text(k, "note")
        || same_text(k, "nickname")
        || same_text(k, "profile")
        || same_text(k, "gameTitle")
        || same_text(k, "currencyUnit")
        || same_text(k, "terms")
        || same_text(k, "basic")
        || same_text(k, "commands")
        || same_text(k, "params")
        || same_text(k, "messages")
        || same_text(k, "actionFailure")
        || same_text(k, "actorDamage")
        || same_text(k, "actorDrain")
        || same_text(k, "actorGain")
        || same_text(k, "actorLoss")
        || same_text(k, "actorNoDamage")
        || same_text(k, "actorNoHit")
        || same_text(k, "actorRecovery")
        || same_text(k, "alwaysDash")
        || same_text(k, "bgmVolume")
        || same_text(k, "bgsVolume")
        || same_text(k, "buffAdd")
        || same_text(k, "buffRemove")
        || same_text(k, "commandRemember")
        || same_text(k, "counterAttack")
        || same_text(k, "criticalToActor")
        || same_text(k, "criticalToEnemy")
        || same_text(k, "debuffAdd")
        || same_text(k, "defeat")
        || same_text(k, "emerge")
        || same_text(k, "enemyDamage")
        || same_text(k, "enemyDrain")
        || same_text(k, "enemyGain")
        || same_text(k, "enemyLoss")
        || same_text(k, "enemyNoDamage")
        || same_text(k, "enemyNoHit")
        || same_text(k, "enemyRecovery")
        || same_text(k, "escapeFailure")
        || same_text(k, "escapeStart")
        || same_text(k, "evasion")
        || same_text(k, "expNext")
        || same_text(k, "expTotal")
        || same_text(k, "file")
        || same_text(k, "levelUp")
        || same_text(k, "loadMessage")
        || same_text(k, "magicEvasion")
        || same_text(k, "magicReflection")
        || same_text(k, "meVolume")
        || same_text(k, "obtainExp")
        || same_text(k, "obtainGold")
        || same_text(k, "obtainItem")
        || same_text(k, "obtainSkill")
        || same_text(k, "partyName")
        || same_text(k, "possession")
        || same_text(k, "preemptive")
        || same_text(k, "saveMessage")
        || same_text(k, "seVolume")
        || same_text(k, "substitute")
        || same_text(k, "surprise")
        || same_text(k, "useItem")
        || same_text(k, "victory")
}

/// Whether `k` is a key whose value is never walked.
pub fn skipped_key(k: &str) -> (r: bool)
    ensures
        r == is_skipped_key(k@),
{
    same_text(k, "se")
        || same_text(k, "bgm")
        || same_text(k, "bgs")
        || same_text(k, "me")
        || same_text(k, "animation1Name")
        || same_text(k, "animation2Name")
        || same_text(k, "battlerName")
        || same_text(k, "characterName")
        || same_text(k, "faceName")
        || same_text(k, "motion")
        || same_text(k, "overlay1Name")
        || same_text(k, "overlay2Name")
        || same_text(k, "tileset")
        || same_text(k, "parallaxName")
        || same_text(k, "battleback1Name")
        || same_text(k, "battleback2Name")
        || same_text(k, "script")
        || same_text(k, "url")
}

} // verus!
