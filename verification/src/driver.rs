//! The decisions of the main loop.
//!
//! The driver owns the one scene that is active and swaps it when the scene
//! asks to. It does no input or output of its own: what it needs from the
//! highscore store it asks for with an [`Errand`], and whoever runs the
//! loop answers.

use vstd::prelude::*;
use crate::events::Event;
use crate::scenes::{GameModel, GameScene, MenuModel, MenuScene, Scene, State, Step};

verus! {

/// The scene that is active.
#[derive(Debug)]
pub enum Active {
    Menu(MenuScene),
    Game(GameScene),
}

/// What the active scene is.
pub enum SceneModel {
    Menu(MenuModel),
    Game(GameModel),
}

impl View for Active {
    type V = SceneModel;

    open spec fn view(&self) -> SceneModel {
        match self {
            Active::Menu(m) => SceneModel::Menu(m@),
            Active::Game(g) => SceneModel::Game(g@),
        }
    }
}

/// What the driver needs done before the next frame.
#[derive(Clone, Copy, Debug, PartialEq, Eq)]
pub enum Errand {
    /// Nothing.
    Nothing,
    /// Write this highscore to the store.
    Save(u64),
    /// Read the highscore from the store and answer with
    /// [`Driver::enter_menu`].
    Load,
}

/// The state of the main loop.
#[derive(Debug)]
pub struct Driver {
    /// The active scene.
    pub scene: Active,
    /// Whether the window is to stay open.
    pub open: bool,
    /// Set while the driver waits for the stored highscore to open the menu
    /// with: the score of the game that just ended, if one did.
    pub awaited: Option<Option<u64>>,
    /// Radius of the tower's hitbox in every game, in length units.
    pub tower_radius: u64,
    /// Radius of a bullet's hitbox in every game, in length units.
    pub bullet_radius: u64,
}

/// What the state of the main loop is.
pub struct DriverModel {
    pub scene: SceneModel,
    pub open: bool,
    pub awaited: Option<Option<u64>>,
    pub tower_radius: u64,
    pub bullet_radius: u64,
}

impl View for Driver {
    type V = DriverModel;

    open spec fn view(&self) -> DriverModel {
        DriverModel {
            scene: self.scene@,
            open: self.open,
            awaited: self.awaited,
            tower_radius: self.tower_radius,
            bullet_radius: self.bullet_radius,
        }
    }
}

impl SceneModel {
    /// What must hold of the scene for it to be used.
    pub open spec fn wf(self) -> bool {
        match self {
            SceneModel::Menu(_) => true,
            SceneModel::Game(g) => g.tower.valid(),
        }
    }

    /// The scene one time step of `dt` microseconds later.
    pub open spec fn after_step(self, dt: u32) -> SceneModel {
        match self {
            SceneModel::Menu(m) => SceneModel::Menu(m.after_step()),
            SceneModel::Game(g) => SceneModel::Game(g.after_step(dt)),
        }
    }

    /// What a step of `dt` microseconds yields.
    pub open spec fn step(self, dt: u32) -> Step {
        match self {
            SceneModel::Menu(m) => m.step(),
            SceneModel::Game(g) => g.after_step(dt).step(),
        }
    }

    /// The scene after the input event `evt`.
    pub open spec fn after_event(self, evt: Event) -> SceneModel {
        match self {
            SceneModel::Menu(m) => SceneModel::Menu(m.after_event(evt)),
            SceneModel::Game(g) => SceneModel::Game(g.after_event(evt)),
        }
    }
}

impl Active {
    /// Steps whichever scene is active.
    pub fn update(&mut self, dt: u32) -> (step: Step)
        requires
            old(self)@.wf(),
        ensures
            final(self)@ == old(self)@.after_step(dt),
            step == old(self)@.step(dt),
            final(self)@.wf(),
    {
        match self {
            Active::Menu(m) => m.update(dt),
            Active::Game(g) => g.update(dt),
        }
    }

    /// Hands one input event to whichever scene is active.
    pub fn events(&mut self, evt: Event)
        requires
            old(self)@.wf(),
        ensures
            final(self)@ == old(self)@.after_event(evt),
            final(self)@.wf(),
    {
        match self {
            Active::Menu(m) => m.events(evt),
            Active::Game(g) => g.events(evt),
        }
    }
}

impl DriverModel {
    /// What must hold of the driver for it to be used.
    pub open spec fn wf(self) -> bool {
        self.scene.wf()
    }

    /// The driver as it starts: in the menu, with the highscore read from
    /// the store and no game played yet, the window open.
    pub open spec fn started(tower_radius: u64, bullet_radius: u64, stored: u64) -> DriverModel {
        DriverModel {
            scene: SceneModel::Menu(MenuModel::opened(stored, None)),
            open: true,
            awaited: None,
            tower_radius,
            bullet_radius,
        }
    }

    /// What the driver needs done after a step of `dt` microseconds.
    ///
    /// While it waits for the store it asks for the load again. Else it
    /// goes by what the scene asks for: to leave has the highscore saved,
    /// to go to the menu needs the stored highscore loaded first, and a
    /// new game needs nothing.
    pub open spec fn errand(self, dt: u32) -> Errand {
        if self.awaited.is_some() {
            Errand::Load
        } else {
            match self.scene.step(dt).request {
                None => Errand::Nothing,
                Some(State::Game) => Errand::Nothing,
                Some(State::Exit) => match self.scene.step(dt).persist {
                    Some(highscore) => Errand::Save(highscore),
                    None => Errand::Nothing,
                },
                Some(State::Menu(_)) => Errand::Load,
            }
        }
    }

    /// The driver after a step of `dt` microseconds.
    ///
    /// While it waits for the store nothing is stepped. Else the scene is
    /// stepped, and what it asks for is acted on: a request for a game
    /// replaces the scene by a fresh game at once; a request to leave
    /// closes the window; a request for the menu is kept, with the score
    /// that came with it, until the stored highscore is there.
    pub open spec fn after_update(self, dt: u32) -> DriverModel {
        if self.awaited.is_some() {
            self
        } else {
            let stepped = self.scene.after_step(dt);
            match self.scene.step(dt).request {
                None => DriverModel { scene: stepped, ..self },
                Some(State::Game) => DriverModel {
                    scene: SceneModel::Game(GameModel::fresh(self.tower_radius, self.bullet_radius)),
                    ..self
                },
                Some(State::Exit) => DriverModel { scene: stepped, open: false, ..self },
                Some(State::Menu(candidate)) => DriverModel {
                    scene: stepped,
                    awaited: Some(candidate),
                    ..self
                },
            }
        }
    }

    /// What is to be written to the store once the stored highscore
    /// `stored` is there: nothing if the driver was not waiting for it.
    pub open spec fn menu_persist(self, stored: u64) -> Option<u64> {
        match self.awaited {
            Some(candidate) => MenuModel::opening_persist(stored, candidate),
            None => None,
        }
    }

    /// The driver once the stored highscore `stored` is there: in the menu
    /// it was waiting to open. A driver that was not waiting is as it was.
    pub open spec fn after_menu(self, stored: u64) -> DriverModel {
        match self.awaited {
            Some(candidate) => DriverModel {
                scene: SceneModel::Menu(MenuModel::opened(stored, candidate)),
                awaited: None,
                ..self
            },
            None => self,
        }
    }

    /// The driver after the input event `evt`: the scene gets to see it,
    /// and a request to close the window, or the escape key, closes the
    /// window.
    pub open spec fn after_event(self, evt: Event) -> DriverModel {
        DriverModel {
            scene: self.scene.after_event(evt),
            open: self.open && !(evt is Closed || evt is EscapePressed),
            ..self
        }
    }
}

impl Driver {
    /// Whether the driver is in order: see [`DriverModel::wf`].
    pub fn is_wf(&self) -> (ok: bool)
        ensures
            ok == self@.wf(),
    {
        match &self.scene {
            Active::Menu(_) => true,
            Active::Game(g) => g.tower.is_valid(),
        }
    }

    /// Starts in the menu, with the highscore read from the store and no
    /// game played yet. The radii are those of the hitboxes in every game
    /// to come.
    pub fn new(tower_radius: u64, bullet_radius: u64, stored: u64) -> (d: Driver)
        ensures
            d@ == DriverModel::started(tower_radius, bullet_radius, stored),
            d@.wf(),
    {
        let opened = MenuScene::new(stored, None);
        Driver {
            scene: Active::Menu(opened.0),
            open: true,
            awaited: None,
            tower_radius,
            bullet_radius,
        }
    }

    /// Steps the active scene by `dt` microseconds and acts on what it
    /// asks for: see [`DriverModel::after_update`]. The result is what
    /// has to be done about the highscore store before the next frame: see
    /// [`DriverModel::errand`].
    pub fn update(&mut self, dt: u32) -> (errand: Errand)
        requires
            old(self)@.wf(),
        ensures
            final(self)@ == old(self)@.after_update(dt),
            errand == old(self)@.errand(dt),
            final(self)@.wf(),
    {
        if self.awaited.is_some() {
            return Errand::Load;
        }
        let step = self.scene.update(dt);
        match step.request {
            None => Errand::Nothing,
            Some(State::Game) => {
                self.scene = Active::Game(GameScene::new(self.tower_radius, self.bullet_radius));
                Errand::Nothing
            },
            Some(State::Exit) => {
                self.open = false;
                match step.persist {
                    Some(highscore) => Errand::Save(highscore),
                    None => Errand::Nothing,
                }
            },
            Some(State::Menu(candidate)) => {
                self.awaited = Some(candidate);
                Errand::Load
            },
        }
    }

    /// Opens the menu that the driver has been waiting to open, now that
    /// the highscore `stored` has been read: see
    /// [`DriverModel::after_menu`]. The result is the highscore to write
    /// back, if one is to be written.
    pub fn enter_menu(&mut self, stored: u64) -> (persist: Option<u64>)
        requires
            old(self)@.wf(),
        ensures
            final(self)@ == old(self)@.after_menu(stored),
            persist == old(self)@.menu_persist(stored),
            final(self)@.wf(),
    {
        match self.awaited {
            Some(candidate) => {
                let opened = MenuScene::new(stored, candidate);
                self.scene = Active::Menu(opened.0);
                self.awaited = None;
                opened.1
            },
            None => None,
        }
    }

    /// Hands one input event to the active scene; a request to close the
    /// window, or the escape key, also closes the window: see
    /// [`DriverModel::after_event`].
    pub fn events(&mut self, evt: Event)
        requires
            old(self)@.wf(),
        ensures
            final(self)@ == old(self)@.after_event(evt),
            final(self)@.wf(),
    {
        match evt {
            Event::Closed => {
                self.open = false;
            },
            Event::EscapePressed => {
                self.open = false;
            },
            _ => {},
        }
        self.scene.events(evt);
    }
}

/// The way through the scenes. From the menu a click on play leads to a
/// fresh game: tower in the middle, no bullet, no score. A game goes on
/// until its tower is dead; from then on every step asks for the stored
/// highscore, and hands the score of the game to the menu that opens when
/// the answer comes. That menu shows the larger of the two, and has it
/// written back. Leaving from the menu has the highscore saved and closes
/// the window.
pub proof fn lemma_scene_transitions(d: DriverModel, dt: u32, stored: u64)
    requires
        d.awaited.is_none(),
    ensures
        d.scene is Menu && d.scene->Menu_0.play_button.clicked ==> {
            &&& d.errand(dt) == Errand::Nothing
            &&& d.after_update(dt).scene == SceneModel::Game(
                GameModel::fresh(d.tower_radius, d.bullet_radius),
            )
            &&& d.after_update(dt).open == d.open
        },
        d.scene is Menu && !d.scene->Menu_0.play_button.clicked
            && d.scene->Menu_0.exit_button.clicked ==> {
            &&& d.errand(dt) == Errand::Save(d.scene->Menu_0.highscore)
            &&& !d.after_update(dt).open
        },
        d.scene is Menu && !d.scene->Menu_0.play_button.clicked
            && !d.scene->Menu_0.exit_button.clicked ==> {
            &&& d.errand(dt) == Errand::Nothing
            &&& d.after_update(dt).open == d.open
            &&& d.after_update(dt).scene is Menu
        },
        d.scene is Game ==> {
            let game = d.scene->Game_0.after_step(dt);
            &&& d.after_update(dt).scene == SceneModel::Game(game)
            &&& d.after_update(dt).open == d.open
            &&& game.score >= d.scene->Game_0.score
            &&& !game.tower.dead ==> d.errand(dt) == Errand::Nothing && d.after_update(
                dt,
            ).awaited.is_none()
            &&& game.tower.dead ==> {
                &&& d.errand(dt) == Errand::Load
                &&& d.after_update(dt).awaited == Some(Some(game.score))
                &&& d.after_update(dt).errand(dt) == Errand::Load
                &&& d.after_update(dt).after_update(dt) == d.after_update(dt)
                &&& d.after_update(dt).after_menu(stored).scene == SceneModel::Menu(
                    MenuModel::opened(stored, Some(game.score)),
                )
                &&& d.after_update(dt).menu_persist(stored).is_some()
                &&& d.after_update(dt).after_menu(stored).awaited.is_none()
            }
        },
{
}

} // verus!
