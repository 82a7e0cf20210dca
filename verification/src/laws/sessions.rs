//! What the window's controls do.

use crate::config::Config;
use crate::session::{logged, texts, AutoSkillCheck};
use vstd::prelude::*;

verus! {

/// A log that took in a message: the message is its last line, and before it
/// are the lines from before, the oldest dropped where there were 200 already.
pub open spec fn took_in(after: Seq<String>, before: Seq<String>, message: Seq<char>) -> bool {
    let dropped: int = if before.len() >= 200 {
        1
    } else {
        0
    };
    &&& after.len() == before.len() + 1 - dropped
    &&& after.last()@ == message
    &&& forall|i: int|
        0 <= i < after.len() - 1 ==> (#[trigger] after[i])@ == before[i + dropped]@
}

proof fn lemma_took_in(after: Seq<String>, before: Seq<String>, message: Seq<char>)
    requires
        before.len() <= 200,
        texts(after) == logged(
            texts(before),
            message,
        ),
    ensures
        took_in(after, before, message),
{
    let held = texts(after);
    let all = texts(before).push(message);
    assert(held.len() == after.len());
    assert forall|i: int| 0 <= i < after.len() implies (#[trigger] after[i])@ == held[i] by {}
    assert(held[after.len() - 1] == message);
}

/// A new session has the settings that it is given, an empty log, and nothing
/// that runs.
pub proof fn lemma_new_session(config: Config, session: AutoSkillCheck)
    requires
        call_ensures(AutoSkillCheck::new, (config,), session),
    ensures
        session.config == config,
        session.logs@.len() == 0,
        !session.running,
        !session.can_stop,
{
    assert(session.log_texts().len() == 0);
}

/// Logging adds a line, keeps the newest 200, and touches nothing else.
pub proof fn lemma_logging(session: &mut AutoSkillCheck, message: String)
    requires
        call_ensures(AutoSkillCheck::log, (session, message), ()),
        session.logs@.len() <= 200,
    ensures
        took_in(final(session).logs@, old(session).logs@, message@),
        final(session).config == old(session).config,
        final(session).running == old(session).running,
        final(session).can_stop == old(session).can_stop,
{
    lemma_took_in(final(session).logs@, session.logs@, message@);
}

/// Starting empties the log and leaves a bot that runs and can be stopped.
pub proof fn lemma_starting(session: &mut AutoSkillCheck)
    requires
        call_ensures(AutoSkillCheck::start, (session,), ()),
    ensures
        final(session).logs@.len() == 0,
        final(session).running,
        final(session).can_stop,
        final(session).config == old(session).config,
{
    assert(final(session).log_texts().len() == 0);
}

/// The bot is told to stop once, the first time that the user asks; it runs on
/// until it has exited.
pub proof fn lemma_told_to_stop_once(session: &mut AutoSkillCheck, tell: bool)
    requires
        call_ensures(AutoSkillCheck::stop, (session,), tell),
        session.logs@.len() <= 200,
    ensures
        tell == old(session).can_stop,
        !final(session).can_stop,
        final(session).running,
        final(session).config == old(session).config,
        took_in(final(session).logs@, old(session).logs@, "Stopping bot..."@),
{
    lemma_took_in(final(session).logs@, session.logs@, "Stopping bot..."@);
}

/// A bot that has exited neither runs nor can be stopped, and can be started.
pub proof fn lemma_exiting(session: &mut AutoSkillCheck)
    requires
        call_ensures(AutoSkillCheck::exited, (session,), ()),
        session.logs@.len() <= 200,
    ensures
        !final(session).running,
        !final(session).can_stop,
        final(session).config == old(session).config,
        took_in(final(session).logs@, old(session).logs@, "Bot thread exited or stopped."@),
{
    lemma_took_in(final(session).logs@, session.logs@, "Bot thread exited or stopped."@);
}

/// Saving is reported: that it went well, or why it did not.
pub proof fn lemma_saving_reported(session: &mut AutoSkillCheck, result: Result<(), String>)
    requires
        call_ensures(AutoSkillCheck::config_saved, (session, result), ()),
        session.logs@.len() <= 200,
    ensures
        result is Ok ==> took_in(
            final(session).logs@,
            old(session).logs@,
            "Config saved successfully"@,
        ),
        result matches Err(error) ==> took_in(
            final(session).logs@,
            old(session).logs@,
            "Failed to save config: "@ + error@,
        ),
        final(session).config == old(session).config,
        final(session).running == old(session).running,
        final(session).can_stop == old(session).can_stop,
{
    match result {
        Ok(_) => lemma_took_in(
            final(session).logs@,
            session.logs@,
            "Config saved successfully"@,
        ),
        Err(error) => lemma_took_in(
            final(session).logs@,
            session.logs@,
            "Failed to save config: "@ + error@,
        ),
    }
}

/// Restoring the defaults is reported in the same way.
pub proof fn lemma_restoring_reported(session: &mut AutoSkillCheck, result: Result<(), String>)
    requires
        call_ensures(AutoSkillCheck::defaults_saved, (session, result), ()),
        session.logs@.len() <= 200,
    ensures
        result is Ok ==> took_in(
            final(session).logs@,
            old(session).logs@,
            "Config restored to defaults"@,
        ),
        result matches Err(error) ==> took_in(
            final(session).logs@,
            old(session).logs@,
            "Failed to save config: "@ + error@,
        ),
        final(session).config == old(session).config,
        final(session).running == old(session).running,
        final(session).can_stop == old(session).can_stop,
{
    match result {
        Ok(_) => lemma_took_in(
            final(session).logs@,
            session.logs@,
            "Config restored to defaults"@,
        ),
        Err(error) => lemma_took_in(
            final(session).logs@,
            session.logs@,
            "Failed to save config: "@ + error@,
        ),
    }
}

/// Restoring the defaults restores the settings and nothing else.
pub proof fn lemma_restoring(session: &mut AutoSkillCheck)
    requires
        call_ensures(AutoSkillCheck::restore_defaults, (session,), ()),
    ensures
        final(session).config.is_default(),
        final(session).logs == old(session).logs,
        final(session).running == old(session).running,
        final(session).can_stop == old(session).can_stop,
{
}

} // verus!
