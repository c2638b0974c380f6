use vstd::prelude::*;
use vstd::string::StringExecFns;

use crate::chart::SeatingChart;
use crate::config::Config;
use crate::excel_io::{lemma_capacities_are_cell_counts, ZoneCellConfig};
use crate::generator::{GenerateError, Generator};
use crate::zone::Zone;

verus! {

/// What happened in a generation run, as reported to the application.
#[derive(Debug)]
pub enum GenerationEvent {
    /// The user asked for a new chart.
    Start,
    /// The template was read, or could not be, with the reason.
    TemplateRead(Result<(), String>),
    /// The most recent chart was read, or could not be, with the reason.
    History1Read(Result<(), String>),
    /// The chart before it was read, or could not be, with the reason.
    History2Read(Result<(), String>),
    /// A new chart was generated, or could not be.
    Generated(Result<(), GenerateError>),
    /// The new chart was written, or could not be, with the reason.
    OutputWritten(Result<(), String>),
}

/// What a generation run does next.
#[derive(Debug)]
pub enum GenerationAction {
    /// Read the template at this path.
    ReadTemplate(String),
    /// Read the most recent chart at this path.
    ReadHistory1(String),
    /// Read the chart before it at this path.
    ReadHistory2(String),
    /// Generate a new chart with `generate_chart`, from the template's
    /// configuration, the chart read from history 1 as the most recent one
    /// and the chart read from history 2 as the one before it.
    Generate,
    /// Write the new chart into a copy of `template` saved at `output`.
    WriteOutput { template: String, output: String },
    /// Save this configuration.
    SaveConfig(Config),
    /// The run is over.
    Stop,
}

/// A new chart for a template's configuration: a generator with a seat
/// for each cell of each zone generates it, given `history1` as the most
/// recent chart and `history2` as the one before it.
pub fn generate_chart(
    config: &ZoneCellConfig,
    history1: &SeatingChart,
    history2: &SeatingChart,
) -> (r: Result<SeatingChart, GenerateError>)
    ensures
        exists|g: Generator|
            (forall|z: Zone| #[trigger] g.capacity(z) == config.cells_of(z).len())
                && #[trigger] g.generates(history1, history2, r),
{
    let g = Generator::new(config.to_capacities());
    let r = g.generate(history1, history2);
    proof {
        assert forall|z: Zone| #[trigger] g.capacity(z) == config.cells_of(z).len() by {
            lemma_capacities_are_cell_counts(config, z);
        }
        assert(g.generates(history1, history2, r));
    }
    r
}

/// The state of the seat generator's window: the four file paths and the
/// status line.
pub struct SeatGeneratorApp {
    pub template_path: String,
    pub history1_path: String,
    pub history2_path: String,
    pub output_path: String,
    pub status: String,
    pub status_is_error: bool,
}

impl SeatGeneratorApp {
    /// Whether some file path is empty.
    pub open spec fn path_missing(&self) -> bool {
        ||| self.template_path@.len() == 0
        ||| self.history1_path@.len() == 0
        ||| self.history2_path@.len() == 0
        ||| self.output_path@.len() == 0
    }

    /// The status line that an event sets, with whether it reports an
    /// error; `None` where the event leaves the status line as it is.
    pub open spec fn status_after(&self, event: GenerationEvent) -> Option<(Seq<char>, bool)> {
        match event {
            GenerationEvent::Start => if self.path_missing() {
                Some(("Error: all four file paths must be specified"@, true))
            } else {
                None
            },
            GenerationEvent::TemplateRead(Err(e)) => Some(
                ("Failed to read template: "@ + e@, true),
            ),
            GenerationEvent::History1Read(Err(e)) => Some(
                ("Failed to read history 1: "@ + e@, true),
            ),
            GenerationEvent::History2Read(Err(e)) => Some(
                ("Failed to read history 2: "@ + e@, true),
            ),
            GenerationEvent::Generated(Err(e)) => Some(("Generation failed: "@ + e.text(), true)),
            GenerationEvent::OutputWritten(Err(e)) => Some(
                ("Failed to write output: "@ + e@, true),
            ),
            GenerationEvent::OutputWritten(Ok(())) => Some(
                ("Done -> "@ + self.output_path@, false),
            ),
            _ => None,
        }
    }

    /// What a generation run does after an event.
    pub open spec fn action_after(&self, event: GenerationEvent) -> GenerationAction {
        match event {
            GenerationEvent::Start => if self.path_missing() {
                GenerationAction::Stop
            } else {
                GenerationAction::ReadTemplate(self.template_path)
            },
            GenerationEvent::TemplateRead(Ok(())) => GenerationAction::ReadHistory1(
                self.history1_path,
            ),
            GenerationEvent::History1Read(Ok(())) => GenerationAction::ReadHistory2(
                self.history2_path,
            ),
            GenerationEvent::History2Read(Ok(())) => GenerationAction::Generate,
            GenerationEvent::Generated(Ok(())) => GenerationAction::WriteOutput {
                template: self.template_path,
                output: self.output_path,
            },
            GenerationEvent::OutputWritten(Ok(())) => GenerationAction::SaveConfig(
                self.config_spec(),
            ),
            _ => GenerationAction::Stop,
        }
    }

    /// The configuration of the current paths.
    pub open spec fn config_spec(&self) -> Config {
        Config {
            template_path: self.template_path,
            history1_path: self.history1_path,
            history2_path: self.history2_path,
            output_path: self.output_path,
        }
    }

    /// A window showing the paths of `config`, with the status "Ready".
    pub fn new(config: Config) -> (r: Self)
        ensures
            r.template_path == config.template_path,
            r.history1_path == config.history1_path,
            r.history2_path == config.history2_path,
            r.output_path == config.output_path,
            r.status@ == "Ready"@,
            !r.status_is_error,
    {
        SeatGeneratorApp {
            template_path: config.template_path,
            history1_path: config.history1_path,
            history2_path: config.history2_path,
            output_path: config.output_path,
            status: String::from_str("Ready"),
            status_is_error: false,
        }
    }

    /// The configuration to save: the current paths.
    pub fn save_config(&self) -> (r: Config)
        ensures
            r == self.config_spec(),
    {
        Config {
            template_path: self.template_path.clone(),
            history1_path: self.history1_path.clone(),
            history2_path: self.history2_path.clone(),
            output_path: self.output_path.clone(),
        }
    }

    fn set_status(&mut self, prefix: &str, detail: &str, is_error: bool)
        ensures
            final(self).status@ == prefix@ + detail@,
            final(self).status_is_error == is_error,
            final(self).template_path == old(self).template_path,
            final(self).history1_path == old(self).history1_path,
            final(self).history2_path == old(self).history2_path,
            final(self).output_path == old(self).output_path,
    {
        let mut s = String::from_str(prefix);
        s.append(detail);
        self.status = s;
        self.status_is_error = is_error;
    }

    /// One step of a generation run: the status line and the next action
    /// after `event`. A run starts with `Start` and then reports the
    /// outcome of each action, until the action is `Stop` or `SaveConfig`.
    pub fn run_generation(&mut self, event: GenerationEvent) -> (r: GenerationAction)
        ensures
            r == old(self).action_after(event),
            match old(self).status_after(event) {
                Some((text, is_error)) => {
                    &&& final(self).status@ == text
                    &&& final(self).status_is_error == is_error
                },
                None => {
                    &&& final(self).status@ == old(self).status@
                    &&& final(self).status_is_error == old(self).status_is_error
                },
            },
            final(self).template_path == old(self).template_path,
            final(self).history1_path == old(self).history1_path,
            final(self).history2_path == old(self).history2_path,
            final(self).output_path == old(self).output_path,
    {
        match event {
            GenerationEvent::Start => {
                if self.template_path.as_str().is_empty() || self.history1_path.as_str().is_empty()
                    || self.history2_path.as_str().is_empty() || self.output_path.as_str().is_empty() {
                    self.set_status("Error: all four file paths must be specified", "", true);
                    proof {
                        reveal_strlit("");
                        assert("Error: all four file paths must be specified"@ + ""@
                            =~= "Error: all four file paths must be specified"@);
                    }
                    GenerationAction::Stop
                } else {
                    GenerationAction::ReadTemplate(self.template_path.clone())
                }
            },
            GenerationEvent::TemplateRead(Ok(())) => GenerationAction::ReadHistory1(
                self.history1_path.clone(),
            ),
            GenerationEvent::TemplateRead(Err(e)) => {
                self.set_status("Failed to read template: ", e.as_str(), true);
                GenerationAction::Stop
            },
            GenerationEvent::History1Read(Ok(())) => GenerationAction::ReadHistory2(
                self.history2_path.clone(),
            ),
            GenerationEvent::History1Read(Err(e)) => {
                self.set_status("Failed to read history 1: ", e.as_str(), true);
                GenerationAction::Stop
            },
            GenerationEvent::History2Read(Ok(())) => GenerationAction::Generate,
            GenerationEvent::History2Read(Err(e)) => {
                self.set_status("Failed to read history 2: ", e.as_str(), true);
                GenerationAction::Stop
            },
            GenerationEvent::Generated(Ok(())) => GenerationAction::WriteOutput {
                template: self.template_path.clone(),
                output: self.output_path.clone(),
            },
            GenerationEvent::Generated(Err(e)) => {
                let m = e.message();
                self.set_status("Generation failed: ", m.as_str(), true);
                GenerationAction::Stop
            },
            GenerationEvent::OutputWritten(Ok(())) => {
                let output = self.output_path.clone();
                self.set_status("Done -> ", output.as_str(), false);
                self.save_config_action()
            },
            GenerationEvent::OutputWritten(Err(e)) => {
                self.set_status("Failed to write output: ", e.as_str(), true);
                GenerationAction::Stop
            },
        }
    }

    fn save_config_action(&self) -> (r: GenerationAction)
        ensures
            r == GenerationAction::SaveConfig(self.config_spec()),
    {
        GenerationAction::SaveConfig(self.save_config())
    }
}

/// A run starts only with all four file paths given: on `Start`, when any
/// one of the template, history 1, history 2 or output paths is empty, the
/// run stops with the error "Error: all four file paths must be specified";
/// when none is, the status line stays as it is and the template is read
/// first.
pub proof fn lemma_start_needs_every_path(app: &SeatGeneratorApp)
    ensures
        (app.template_path@.len() == 0 || app.history1_path@.len() == 0
            || app.history2_path@.len() == 0 || app.output_path@.len() == 0) ==> app.action_after(
            GenerationEvent::Start,
        ) == GenerationAction::Stop && app.status_after(GenerationEvent::Start) == Some(
            ("Error: all four file paths must be specified"@, true),
        ),
        (app.template_path@.len() != 0 && app.history1_path@.len() != 0
            && app.history2_path@.len() != 0 && app.output_path@.len() != 0) ==> app.action_after(
            GenerationEvent::Start,
        ) == GenerationAction::ReadTemplate(app.template_path) && app.status_after(
            GenerationEvent::Start,
        ) is None,
{
}

/// A run goes through its steps in order: once the template is read,
/// history 1 (the most recent chart) is read, then history 2 (the chart
/// before it), then the chart is generated, then written into a copy of
/// the template at the output path, and then the four paths are saved,
/// with the status "Done -> " and the output path. Every failure stops the
/// run and reports an error on the status line, with the failure's text.
pub proof fn lemma_run_steps(app: &SeatGeneratorApp, e: String, g: GenerateError)
    ensures
        app.action_after(GenerationEvent::TemplateRead(Ok(())))
            == GenerationAction::ReadHistory1(app.history1_path),
        app.action_after(GenerationEvent::History1Read(Ok(())))
            == GenerationAction::ReadHistory2(app.history2_path),
        app.action_after(GenerationEvent::History2Read(Ok(()))) == GenerationAction::Generate,
        app.action_after(GenerationEvent::Generated(Ok(()))) == (GenerationAction::WriteOutput {
            template: app.template_path,
            output: app.output_path,
        }),
        app.action_after(GenerationEvent::OutputWritten(Ok(()))) == GenerationAction::SaveConfig(
            Config {
                template_path: app.template_path,
                history1_path: app.history1_path,
                history2_path: app.history2_path,
                output_path: app.output_path,
            },
        ),
        app.status_after(GenerationEvent::OutputWritten(Ok(()))) == Some(
            ("Done -> "@ + app.output_path@, false),
        ),
        app.action_after(GenerationEvent::TemplateRead(Err(e))) == GenerationAction::Stop,
        app.action_after(GenerationEvent::History1Read(Err(e))) == GenerationAction::Stop,
        app.action_after(GenerationEvent::History2Read(Err(e))) == GenerationAction::Stop,
        app.action_after(GenerationEvent::Generated(Err(g))) == GenerationAction::Stop,
        app.action_after(GenerationEvent::OutputWritten(Err(e))) == GenerationAction::Stop,
        app.status_after(GenerationEvent::TemplateRead(Err(e))) == Some(
            ("Failed to read template: "@ + e@, true),
        ),
        app.status_after(GenerationEvent::History1Read(Err(e))) == Some(
            ("Failed to read history 1: "@ + e@, true),
        ),
        app.status_after(GenerationEvent::History2Read(Err(e))) == Some(
            ("Failed to read history 2: "@ + e@, true),
        ),
        app.status_after(GenerationEvent::Generated(Err(g))) == Some(
            ("Generation failed: "@ + g.text(), true),
        ),
        app.status_after(GenerationEvent::OutputWritten(Err(e))) == Some(
            ("Failed to write output: "@ + e@, true),
        ),
{
}

} // verus!
