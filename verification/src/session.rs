//! What the window shows and offers: the settings, the log, start and stop.

use crate::config::Config;
use std::collections::VecDeque;
use vstd::prelude::*;
use vstd::string::StringExecFns;

verus! {

/// The longest that the log gets.
pub const LOG_LIMIT: usize = 200;

/// The settings at hand, the log, and whether the bot runs.
#[derive(Debug)]
pub struct AutoSkillCheck {
    pub config: Config,
    pub logs: VecDeque<String>,
    /// The bot has been started and has not exited yet.
    pub running: bool,
    /// The bot has not been told to stop yet.
    pub can_stop: bool,
}

/// The texts of a log.
pub open spec fn texts(logs: Seq<String>) -> Seq<Seq<char>> {
    Seq::new(logs.len(), |i: int| logs[i]@)
}

/// A log with one more message; past its limit it loses the oldest one.
pub open spec fn logged(log: Seq<Seq<char>>, message: Seq<char>) -> Seq<Seq<char>> {
    let all = log.push(message);
    if all.len() > LOG_LIMIT {
        all.skip(1)
    } else {
        all
    }
}

/// Messages that arrive one after another.
pub open spec fn all_logged(log: Seq<Seq<char>>, messages: Seq<Seq<char>>) -> Seq<Seq<char>>
    decreases messages.len(),
{
    if messages.len() == 0 {
        log
    } else {
        logged(all_logged(log, messages.drop_last()), messages.last())
    }
}

impl AutoSkillCheck {
    /// The log is within its limit, and only a bot that runs can be stopped.
    pub open spec fn wf(self) -> bool {
        &&& self.logs@.len() <= LOG_LIMIT
        &&& self.can_stop ==> self.running
    }

    pub open spec fn log_texts(self) -> Seq<Seq<char>> {
        texts(self.logs@)
    }

    /// Nothing logged, nothing running.
    pub fn new(config: Config) -> (session: AutoSkillCheck)
        ensures
            session.wf(),
            session.config == config,
            session.log_texts() == Seq::<Seq<char>>::empty(),
            !session.running,
            !session.can_stop,
    {
        AutoSkillCheck { config, logs: VecDeque::new(), running: false, can_stop: false }
    }

    /// Adds a message to the log.
    pub fn log(&mut self, message: String)
        requires
            old(self).wf(),
        ensures
            final(self).wf(),
            final(self).log_texts() == logged(old(self).log_texts(), message@),
            final(self).config == old(self).config,
            final(self).running == old(self).running,
            final(self).can_stop == old(self).can_stop,
    {
        let ghost before = self.log_texts();
        let ghost text = message@;
        self.logs.push_back(message);
        assert(texts(self.logs@) =~= before.push(text));
        if self.logs.len() > LOG_LIMIT {
            self.logs.pop_front();
            assert(texts(self.logs@) =~= before.push(text).skip(1));
        }
    }

    /// The bot starts, with an empty log.
    pub fn start(&mut self)
        requires
            old(self).wf(),
            !old(self).running,
        ensures
            final(self).wf(),
            final(self).log_texts() == Seq::<Seq<char>>::empty(),
            final(self).config == old(self).config,
            final(self).running,
            final(self).can_stop,
    {
        self.logs.clear();
        self.running = true;
        self.can_stop = true;
        assert(texts(self.logs@) =~= Seq::<Seq<char>>::empty());
    }

    /// The user asks the bot to stop. Returns whether it is to be told: it is
    /// told once.
    pub fn stop(&mut self) -> (tell: bool)
        requires
            old(self).wf(),
            old(self).running,
        ensures
            final(self).wf(),
            tell == old(self).can_stop,
            final(self).log_texts() == logged(old(self).log_texts(), "Stopping bot..."@),
            final(self).config == old(self).config,
            final(self).running,
            !final(self).can_stop,
    {
        self.log("Stopping bot...".to_owned());
        let tell: bool = self.can_stop;
        self.can_stop = false;
        tell
    }

    /// The bot has exited, by itself or because it was told to.
    pub fn exited(&mut self)
        requires
            old(self).wf(),
        ensures
            final(self).wf(),
            final(self).log_texts() == logged(
                old(self).log_texts(),
                "Bot thread exited or stopped."@,
            ),
            final(self).config == old(self).config,
            !final(self).running,
            !final(self).can_stop,
    {
        self.running = false;
        self.can_stop = false;
        self.log("Bot thread exited or stopped.".to_owned());
    }

    /// The settings go back to their defaults, before they are saved.
    pub fn restore_defaults(&mut self)
        requires
            old(self).wf(),
        ensures
            final(self).wf(),
            final(self).config.is_default(),
            final(self).logs == old(self).logs,
            final(self).running == old(self).running,
            final(self).can_stop == old(self).can_stop,
    {
        self.config = Config::default();
    }

    /// The defaults have been saved, or why they have not.
    pub fn defaults_saved(&mut self, result: Result<(), String>)
        requires
            old(self).wf(),
        ensures
            final(self).wf(),
            final(self).log_texts() == logged(
                old(self).log_texts(),
                match result {
                    Ok(()) => "Config restored to defaults"@,
                    Err(error) => "Failed to save config: "@ + error@,
                },
            ),
            final(self).config == old(self).config,
            final(self).running == old(self).running,
            final(self).can_stop == old(self).can_stop,
    {
        match result {
            Ok(()) => self.log("Config restored to defaults".to_owned()),
            Err(error) => self.log("Failed to save config: ".to_owned().concat(error.as_str())),
        }
    }

    /// The settings have been saved, or why they have not.
    pub fn config_saved(&mut self, result: Result<(), String>)
        requires
            old(self).wf(),
        ensures
            final(self).wf(),
            final(self).log_texts() == logged(
                old(self).log_texts(),
                match result {
                    Ok(()) => "Config saved successfully"@,
                    Err(error) => "Failed to save config: "@ + error@,
                },
            ),
            final(self).config == old(self).config,
            final(self).running == old(self).running,
            final(self).can_stop == old(self).can_stop,
    {
        match result {
            Ok(()) => self.log("Config saved successfully".to_owned()),
            Err(error) => self.log("Failed to save config: ".to_owned().concat(error.as_str())),
        }
    }
}

impl Default for AutoSkillCheck {
    fn default() -> (session: Self)
        ensures
            session.wf(),
            session.config.is_default(),
            session.log_texts() == Seq::<Seq<char>>::empty(),
            !session.running,
            !session.can_stop,
    {
        AutoSkillCheck::new(Config::default())
    }
}

/// The log holds the newest messages, oldest first: whatever it held before,
/// followed by the messages that arrived, as far as the limit reaches back.
pub proof fn lemma_log_keeps_newest(log: Seq<Seq<char>>, messages: Seq<Seq<char>>)
    requires
        log.len() <= LOG_LIMIT,
    ensures
        all_logged(log, messages) == (log + messages).skip(
            if log.len() + messages.len() > LOG_LIMIT {
                log.len() + messages.len() - LOG_LIMIT
            } else {
                0
            },
        ),
    decreases messages.len(),
{
    let all = log + messages;
    if messages.len() > 0 {
        lemma_log_keeps_newest(log, messages.drop_last());
        let kept = all_logged(log, messages.drop_last());
        let from = if all.len() > LOG_LIMIT {
            all.len() - LOG_LIMIT
        } else {
            0
        };
        assert(log + messages.drop_last() =~= all.drop_last());
        assert(logged(kept, messages.last()) =~= all.skip(from));
    } else {
        assert(all.skip(0) =~= log);
    }
}

} // verus!
