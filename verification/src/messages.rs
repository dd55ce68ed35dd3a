//! What the client exchanges with servers, with the simulation controller, and
//! with the code that runs it.

use crate::ids::NodeId;
use crate::packet::{Packet, PacketView};
use crate::trails::path_views;
use vstd::prelude::*;

verus! {

/// The content of messages that the client hands on without looking into it.
pub trait Content: Sized {
    /// What a server says that it is.
    type ServerType;
    /// The files that a server offers.
    type FilesList;
    /// A file.
    type File;
    /// A message of the network that is neither to nor from a server.
    type Message;
}

/// What the user of the client does with it.
#[derive(Clone, Copy, Debug, PartialEq, Eq, Structural)]
pub enum ClientType {
    ChatClients,
    WebBrowsers,
}

impl ClientType {
    /// The other of the two uses.
    pub open spec fn switched(self) -> ClientType {
        match self {
            ClientType::ChatClients => ClientType::WebBrowsers,
            ClientType::WebBrowsers => ClientType::ChatClients,
        }
    }
}

/// What a client asks of a server.
#[derive(Debug, PartialEq, Eq)]
pub enum ClientMessages {
    ServerType,
    FilesList,
    File(u64),
    Media(u64),
    ClientList,
    RegistrationToChat,
    MessageFor(NodeId, String),
}

/// What a server answers.
pub enum ServerMessages<C: Content> {
    ServerType(C::ServerType),
    ClientList(Vec<NodeId>),
    FilesList(C::FilesList),
    File(C::File),
    Media(Vec<u8>),
    MessageFrom(NodeId, String),
    RegistrationOk,
    RegistrationError(String),
    Error(String),
}

/// A message of the network.
pub enum TestMessage<C: Content> {
    WebServerMessages(ClientMessages),
    WebClientMessages(ServerMessages<C>),
    Other(C::Message),
}

/// What the client tells the simulation controller.
pub enum ClientEvent<C: Content> {
    PacketSent(Packet),
    MessageReceived(TestMessage<C>),
    ServerTypeReceived(NodeId, NodeId, C::ServerType),
    ClientListReceived(NodeId, NodeId, Vec<NodeId>),
    FilesListReceived(NodeId, NodeId, C::FilesList),
    FileReceived(NodeId, NodeId, C::File),
    MediaReceived(NodeId, NodeId, Vec<u8>),
    MessageFromReceived(NodeId, NodeId, NodeId, String),
    RegistrationOk(NodeId, NodeId),
    RegistrationError(NodeId, NodeId),
    Route(Vec<NodeId>),
    DebugMessage(NodeId, String),
    Error(NodeId, String),
}

/// Model of a [`ClientEvent`].
pub enum EventView<C: Content> {
    PacketSent(PacketView),
    MessageReceived(TestMessage<C>),
    ServerTypeReceived(NodeId, NodeId, C::ServerType),
    ClientListReceived(NodeId, NodeId, Seq<NodeId>),
    FilesListReceived(NodeId, NodeId, C::FilesList),
    FileReceived(NodeId, NodeId, C::File),
    MediaReceived(NodeId, NodeId, Seq<u8>),
    MessageFromReceived(NodeId, NodeId, NodeId, Seq<char>),
    RegistrationOk(NodeId, NodeId),
    RegistrationError(NodeId, NodeId),
    Route(Seq<NodeId>),
    DebugMessage(NodeId, Seq<char>),
    Error(NodeId, Seq<char>),
}

impl<C: Content> View for ClientEvent<C> {
    type V = EventView<C>;

    open spec fn view(&self) -> EventView<C> {
        match *self {
            ClientEvent::PacketSent(p) => EventView::PacketSent(p@),
            ClientEvent::MessageReceived(m) => EventView::MessageReceived(m),
            ClientEvent::ServerTypeReceived(a, b, t) => EventView::ServerTypeReceived(a, b, t),
            ClientEvent::ClientListReceived(a, b, l) => EventView::ClientListReceived(a, b, l@),
            ClientEvent::FilesListReceived(a, b, l) => EventView::FilesListReceived(a, b, l),
            ClientEvent::FileReceived(a, b, f) => EventView::FileReceived(a, b, f),
            ClientEvent::MediaReceived(a, b, m) => EventView::MediaReceived(a, b, m@),
            ClientEvent::MessageFromReceived(a, b, c, m) => EventView::MessageFromReceived(a, b, c, m@),
            ClientEvent::RegistrationOk(a, b) => EventView::RegistrationOk(a, b),
            ClientEvent::RegistrationError(a, b) => EventView::RegistrationError(a, b),
            ClientEvent::Route(p) => EventView::Route(p@),
            ClientEvent::DebugMessage(a, t) => EventView::DebugMessage(a, t@),
            ClientEvent::Error(a, t) => EventView::Error(a, t@),
        }
    }
}

/// What the simulation controller asks of the client.
#[derive(Debug, PartialEq, Eq)]
pub enum ClientCommand {
    RemoveSender(NodeId),
    AddSender(NodeId),
    ServerType(NodeId),
    FilesList(NodeId),
    File(NodeId, u64),
    Media(NodeId, u64),
    ClientList(NodeId),
    RegistrationToChat(NodeId),
    MessageFor(NodeId, NodeId, String),
    RequestNetworkDiscovery,
    ControllerShortcut(Packet),
}

/// The trails to the servers that the client knows of.
#[derive(Debug, PartialEq, Eq)]
pub struct RouteReport {
    /// How many nodes are known.
    pub known_nodes: usize,
    /// How many links are known.
    pub known_links: usize,
    /// Each known server, with all the trails to it.
    pub servers: Vec<(NodeId, Vec<Vec<NodeId>>)>,
}

/// Model of a [`RouteReport`].
pub struct ReportView {
    pub known_nodes: nat,
    pub known_links: nat,
    pub servers: Seq<(NodeId, Seq<Seq<NodeId>>)>,
}

impl View for RouteReport {
    type V = ReportView;

    open spec fn view(&self) -> ReportView {
        ReportView {
            known_nodes: self.known_nodes as nat,
            known_links: self.known_links as nat,
            servers: server_views(self.servers@),
        }
    }
}

/// The servers of a report, with the contents of the trails to each.
pub open spec fn server_views(servers: Seq<(NodeId, Vec<Vec<NodeId>>)>) -> Seq<(NodeId, Seq<Seq<NodeId>>)> {
    servers.map_values(|s: (NodeId, Vec<Vec<NodeId>>)| (s.0, path_views(s.1@)))
}

/// Something for the code that runs the client to do, in the order given.
pub enum Action<C: Content> {
    /// Send a packet to a neighbour, and report the delivery.
    Send { packet: Packet, recipient: NodeId },
    /// Tell the simulation controller.
    Notify(ClientEvent<C>),
    /// Cut the message into fragments that follow the path, and hand them back.
    Fragment { path: Vec<NodeId>, message: TestMessage<C> },
    /// Decode the message, and hand it back.
    Decode { session_id: u64, src_id: NodeId, data: Vec<u8> },
    /// Show what is known of the network.
    Report(RouteReport),
}

/// Model of an [`Action`].
pub enum ActionView<C: Content> {
    Send { packet: PacketView, recipient: NodeId },
    Notify(EventView<C>),
    Fragment { path: Seq<NodeId>, message: TestMessage<C> },
    Decode { session_id: u64, src_id: NodeId, data: Seq<u8> },
    Report(ReportView),
}

impl<C: Content> View for Action<C> {
    type V = ActionView<C>;

    open spec fn view(&self) -> ActionView<C> {
        match *self {
            Action::Send { packet, recipient } => ActionView::Send { packet: packet@, recipient },
            Action::Notify(e) => ActionView::Notify(e@),
            Action::Fragment { path, message } => ActionView::Fragment { path: path@, message },
            Action::Decode { session_id, src_id, data } => ActionView::Decode {
                session_id,
                src_id,
                data: data@,
            },
            Action::Report(r) => ActionView::Report(r@),
        }
    }
}

/// The actions of a list, by their models.
pub open spec fn action_views<C: Content>(actions: Seq<Action<C>>) -> Seq<ActionView<C>> {
    actions.map_values(|a: Action<C>| a@)
}

/// The event that tells of a message from a server.
pub open spec fn event_of<C: Content>(id: NodeId, src_id: NodeId, message: ServerMessages<C>) -> EventView<C> {
    match message {
        ServerMessages::ServerType(t) => EventView::ServerTypeReceived(id, src_id, t),
        ServerMessages::ClientList(l) => EventView::ClientListReceived(id, src_id, l@),
        ServerMessages::FilesList(l) => EventView::FilesListReceived(id, src_id, l),
        ServerMessages::File(f) => EventView::FileReceived(id, src_id, f),
        ServerMessages::Media(m) => EventView::MediaReceived(id, src_id, m@),
        ServerMessages::MessageFrom(from, text) => EventView::MessageFromReceived(id, src_id, from, text@),
        ServerMessages::RegistrationOk => EventView::RegistrationOk(id, src_id),
        ServerMessages::RegistrationError(_) => EventView::RegistrationError(id, src_id),
        ServerMessages::Error(text) => EventView::Error(id, text@),
    }
}

/// The event that tells of a decoded message: by its content where it comes from a
/// server, else as it is.
pub open spec fn message_event<C: Content>(id: NodeId, src_id: NodeId, message: TestMessage<C>) -> EventView<C> {
    match message {
        TestMessage::WebClientMessages(m) => event_of(id, src_id, m),
        _ => EventView::MessageReceived(message),
    }
}

/// What the simulation controller is told of a packet that was handed to a channel:
/// that it was sent, where the channel took it.
pub fn delivery_report<C: Content>(packet: Packet, delivered: bool) -> (res: Option<ClientEvent<C>>)
    ensures
        match res {
            Some(event) => delivered && event@ == EventView::<C>::PacketSent(packet@),
            None => !delivered,
        },
{
    if delivered {
        Some(ClientEvent::PacketSent(packet))
    } else {
        None
    }
}

} // verus!
